//! Renders an [`Ast`] back into `.nh`-shaped text.
//!
//! Printing normalised source shows what was understood, and because it is
//! close to round-trippable, a surprising re-print is itself a bug report.
//! Parenthesisation follows binding strength, so the printed form reparses
//! to the same tree.

use vstd::prelude::*;
use crate::syntax::ast::{
    AllowDef, Alternative, Ast, BoundaryDef, CaseMode, Direction, Expr, ExpectDef, ExprKind, Fixity,
    GuardDef, OpRef, PrecEntry, PrecedenceBlock, RecoverDef, RepeatKind, ReservedDef, RuleDef, SkipDef,
    TokenDef, UsePreset,
};
use crate::codegen::drift::joined;
use crate::text::{owned, push_char};

verus! {

/// How a character is written inside a `.nh` string literal.
pub open spec fn quote_char(c: char) -> Seq<char> {
    if c == '"' {
        seq!['\\', '"']
    } else if c == '\\' {
        seq!['\\', '\\']
    } else if c == '\n' {
        seq!['\\', 'n']
    } else if c == '\r' {
        seq!['\\', 'r']
    } else if c == '\t' {
        seq!['\\', 't']
    } else if c == '\0' {
        seq!['\\', '0']
    } else {
        seq![c]
    }
}

pub open spec fn quoted_body(s: Seq<char>) -> Seq<char>
    decreases s.len(),
{
    if s.len() == 0 {
        Seq::empty()
    } else {
        quoted_body(s.drop_last()) + quote_char(s.last())
    }
}

/// `s` as a `.nh` string literal.
pub fn quote(s: &str) -> (r: String)
    ensures
        r@ == seq!['"'] + quoted_body(s@) + seq!['"'],
{
    let v = crate::text::chars_of(s);
    let mut out = String::new();
    push_char(&mut out, '"');
    let mut i: usize = 0;
    while i < v.len()
        invariant
            v@ == s@,
            i <= v@.len(),
            out@ == seq!['"'] + quoted_body(v@.take(i as int)),
        decreases v@.len() - i,
    {
        let c = v[i];
        if c == '"' || c == '\\' || c == '\n' || c == '\r' || c == '\t' || c == '\0' {
            push_char(&mut out, '\\');
            push_char(
                &mut out,
                if c == '\n' {
                    'n'
                } else if c == '\r' {
                    'r'
                } else if c == '\t' {
                    't'
                } else if c == '\0' {
                    '0'
                } else {
                    c
                },
            );
        } else {
            push_char(&mut out, c);
        }
        assert(v@.take(i + 1).drop_last() == v@.take(i as int));
        i = i + 1;
        assert(out@ =~= seq!['"'] + quoted_body(v@.take(i as int)));
    }
    assert(v@.take(v@.len() as int) == v@);
    push_char(&mut out, '"');
    out
}

/// `s` as a `.nh` string literal.
pub open spec fn quoted(s: Seq<char>) -> Seq<char> {
    seq!['"'] + quoted_body(s) + seq!['"']
}

pub open spec fn paren_if(body: Seq<char>, paren: bool) -> Seq<char> {
    if paren {
        "("@ + body + ")"@
    } else {
        body
    }
}

pub open spec fn suffix_text(kind: RepeatKind) -> Seq<char> {
    match kind {
        RepeatKind::ZeroOrMore => "*"@,
        RepeatKind::OneOrMore => "+"@,
        RepeatKind::Optional => "?"@,
    }
}

/// An expression as `.nh` text, printed where binding strength `level`
/// applies: 0 at the top, 1 inside a sequence, 2 under a repetition or
/// lookahead. A choice is parenthesised inside a sequence, a sequence or
/// binding under a repetition.
pub open spec fn expr_text(e: Expr, level: nat) -> Seq<char>
    decreases e,
{
    match e.kind {
        ExprKind::Choice(parts) => paren_if(exprs_text(parts@, " | "@), level >= 1),
        ExprKind::Sequence(parts) => paren_if(exprs_text(parts@, " "@), level >= 2),
        ExprKind::Repeat { inner, kind } => expr_text(*inner, 2) + suffix_text(kind),
        ExprKind::Lookahead { inner, negative } => (if negative {
            "!"@
        } else {
            "&"@
        }) + expr_text(*inner, 2),
        ExprKind::Bind { name, inner, lazy } => paren_if(
            (if lazy {
                "lazy "@
            } else {
                ""@
            }) + name.value@ + ":"@ + expr_text(*inner, 2),
            level >= 2,
        ),
        ExprKind::Literal { value, case_insensitive } => if case_insensitive {
            "^"@ + quoted(value@)
        } else {
            quoted(value@)
        },
        ExprKind::CharRange { lo, hi } => quoted(lo@) + ".."@ + quoted(hi@),
        ExprKind::Ref(name) => name@,
    }
}

/// The parts of a sequence or choice, each printed inside a sequence,
/// separated by `sep`.
pub open spec fn exprs_text(parts: Seq<Expr>, sep: Seq<char>) -> Seq<char>
    decreases parts,
{
    if parts.len() == 0 {
        Seq::empty()
    } else if parts.len() == 1 {
        expr_text(parts[0], 1)
    } else {
        exprs_text(parts.drop_last(), sep) + sep + expr_text(parts.last(), 1)
    }
}

/// The texts of `parts`, one after another.
pub open spec fn concat(parts: Seq<Seq<char>>) -> Seq<char>
    decreases parts.len(),
{
    if parts.len() == 0 {
        Seq::empty()
    } else {
        concat(parts.drop_last()) + parts.last()
    }
}

proof fn lemma_concat_step(parts: Seq<Seq<char>>, i: int)
    requires
        0 <= i < parts.len(),
    ensures
        concat(parts.take(i + 1)) == concat(parts.take(i)) + parts[i],
{
    assert(parts.take(i + 1).drop_last() =~= parts.take(i));
}

proof fn lemma_joined_step(parts: Seq<Seq<char>>, i: int, sep: Seq<char>)
    requires
        0 <= i < parts.len(),
    ensures
        joined(parts.take(i + 1), sep) == if i == 0 {
            parts[0]
        } else {
            joined(parts.take(i), sep) + sep + parts[i]
        },
{
    assert(parts.take(i + 1).drop_last() =~= parts.take(i));
}

/// Binding strength of the position an expression is printed in.
#[derive(Clone, Copy, PartialEq, Eq, Structural)]
enum Prec {
    /// Choice level: anything may appear unparenthesised.
    Top,
    /// Inside a sequence: a bare choice must be parenthesised.
    Sequence,
    /// Under a repetition or lookahead: sequences and choices both must be.
    Unary,
}

spec fn prec_level(p: Prec) -> nat {
    match p {
        Prec::Top => 0,
        Prec::Sequence => 1,
        Prec::Unary => 2,
    }
}

fn level(p: Prec) -> (n: u8)
    ensures
        n == prec_level(p),
{
    match p {
        Prec::Top => 0,
        Prec::Sequence => 1,
        Prec::Unary => 2,
    }
}

fn wrap(body: String, paren: bool) -> (r: String)
    ensures
        r@ == paren_if(body@, paren),
{
    if paren {
        let mut s = owned("(");
        s.append(body.as_str());
        s.append(")");
        s
    } else {
        body
    }
}

fn suffix(kind: RepeatKind) -> (r: &'static str)
    ensures
        r@ == suffix_text(kind),
{
    match kind {
        RepeatKind::ZeroOrMore => "*",
        RepeatKind::OneOrMore => "+",
        RepeatKind::Optional => "?",
    }
}

fn expr(e: &Expr, ctx: Prec) -> (s: String)
    ensures
        s@ == expr_text(*e, prec_level(ctx)),
    decreases e,
{
    match &e.kind {
        ExprKind::Choice(parts) | ExprKind::Sequence(parts) => {
            let is_choice = match &e.kind {
                ExprKind::Choice(_) => true,
                _ => false,
            };
            let sep = if is_choice { " | " } else { " " };
            let mut body = String::new();
            let mut i: usize = 0;
            proof {
                assert(decreases_to!(e => *parts));
                assert(parts@.take(0) =~= Seq::<Expr>::empty());
            }
            while i < parts.len()
                invariant
                    decreases_to!(e => *parts),
                    i <= parts@.len(),
                    body@ == exprs_text(parts@.take(i as int), sep@),
                decreases parts@.len() - i,
            {
                proof {
                    assert(decreases_to!(*parts => parts[i as int]));
                    assert(parts@.take(i + 1).drop_last() =~= parts@.take(i as int));
                    assert(parts@.take(i + 1).last() == parts@[i as int]);
                }
                let ghost b0 = body@;
                if i > 0 {
                    body.append(sep);
                }
                let f = expr(&parts[i], Prec::Sequence);
                body.append(f.as_str());
                proof {
                    if i == 0 {
                        assert(body@ =~= f@);
                    } else {
                        assert(body@ =~= b0 + sep@ + f@);
                    }
                }
                i = i + 1;
            }
            proof { assert(parts@.take(parts@.len() as int) =~= parts@); }
            let paren = if is_choice { level(ctx) >= 1 } else { level(ctx) >= 2 };
            wrap(body, paren)
        },
        ExprKind::Repeat { inner, kind } => {
            let mut s = expr(inner, Prec::Unary);
            s.append(suffix(*kind));
            s
        },
        ExprKind::Lookahead { inner, negative } => {
            let mut s = owned(if *negative { "!" } else { "&" });
            s.append(expr(inner, Prec::Unary).as_str());
            s
        },
        ExprKind::Bind { name, inner, lazy } => {
            // Under a repetition or lookahead a binding is parenthesised:
            // `inner:X*` reparses as a binding of a repetition.
            let mut body = owned(if *lazy { "lazy " } else { "" });
            body.append(name.value.as_str());
            body.append(":");
            body.append(expr(inner, Prec::Unary).as_str());
            wrap(body, level(ctx) >= 2)
        },
        ExprKind::Literal { value, case_insensitive } => {
            let q = quote(value.as_str());
            if *case_insensitive {
                let mut s = owned("^");
                s.append(q.as_str());
                s
            } else {
                q
            }
        },
        ExprKind::CharRange { lo, hi } => {
            let mut s = quote(lo.as_str());
            s.append("..");
            s.append(quote(hi.as_str()).as_str());
            s
        },
        ExprKind::Ref(name) => owned(name.as_str()),
    }
}

/// The label part of an alternative: ` -> label`, then ` place`.
pub open spec fn label_text(alt: Alternative) -> Seq<char> {
    match alt.label {
        Some(label) => " -> "@ + label.value@ + if alt.place {
            " place"@
        } else {
            Seq::empty()
        },
        None => Seq::empty(),
    }
}

/// An alternative as `.nh` text: its body, label and `place`.
pub open spec fn alternative_text(alt: Alternative) -> Seq<char> {
    expr_text(alt.body, 0) + label_text(alt)
}

/// Renders one alternative back to `.nh`, with its label and `place`.
pub fn alternative_source(alt: &Alternative) -> (out: String)
    ensures
        out@ == alternative_text(*alt),
{
    let mut out = expr(&alt.body, Prec::Top);
    let ghost body = out@;
    match &alt.label {
        Some(label) => {
            out.append(" -> ");
            out.append(label.value.as_str());
            if alt.place {
                out.append(" place");
            }
            proof {
                if alt.place {
                    assert(out@ =~= body + (" -> "@ + label.value@ + " place"@));
                } else {
                    assert(out@ =~= body + (" -> "@ + label.value@ + Seq::<char>::empty()));
                }
            }
        },
        None => {
            proof { assert(out@ =~= body + Seq::<char>::empty()); }
        },
    }
    out
}

pub open spec fn op_ref_text(op: OpRef) -> Seq<char> {
    if op.word {
        "word "@ + quoted(op.literal.value@)
    } else {
        quoted(op.literal.value@)
    }
}

fn op_ref(op: &OpRef) -> (s: String)
    ensures
        s@ == op_ref_text(*op),
{
    if op.word {
        let mut s = owned("word ");
        s.append(quote(op.literal.value.as_str()).as_str());
        s
    } else {
        quote(op.literal.value.as_str())
    }
}

pub open spec fn refs_text(ops: Seq<OpRef>, sep: Seq<char>) -> Seq<char> {
    joined(ops.map_values(|o: OpRef| op_ref_text(o)), sep)
}

pub open spec fn fixity_text(f: Fixity) -> Seq<char> {
    match f {
        Fixity::Left => "left"@,
        Fixity::Right => "right"@,
        Fixity::Prefix => "prefix"@,
        Fixity::Postfix => "postfix"@,
    }
}

pub open spec fn values(v: Seq<crate::syntax::source::Spanned<String>>) -> Seq<Seq<char>> {
    v.map_values(|s: crate::syntax::source::Spanned<String>| s.value@)
}

/// One line of a `precedence` block.
pub open spec fn entry_text(e: PrecEntry) -> Seq<char> {
    match e {
        PrecEntry::Atom { rule, .. } => "  atom "@ + rule.value@ + ";\n"@,
        PrecEntry::Remove { ops, .. } => "  remove "@ + refs_text(ops@, " "@) + ";\n"@,
        PrecEntry::Op(op) => "  "@ + fixity_text(op.fixity.value) + " "@ + refs_text(op.ops@, " | "@)
            + placement_text(op) + lazy_text(op) + role_text(op) + ";\n"@,
    }
}

pub open spec fn placement_text(op: crate::syntax::ast::OpEntry) -> Seq<char> {
    match op.placement {
        Some(p) => (if p.direction == Direction::Above {
            " above "@
        } else {
            " below "@
        }) + quoted(p.anchor.value@),
        None => Seq::empty(),
    }
}

pub open spec fn lazy_text(op: crate::syntax::ast::OpEntry) -> Seq<char> {
    if op.lazy@.len() > 0 {
        " lazy("@ + joined(values(op.lazy@), ", "@) + ")"@
    } else {
        Seq::empty()
    }
}

pub open spec fn role_text(op: crate::syntax::ast::OpEntry) -> Seq<char> {
    match op.role {
        Some(role) => " -> "@ + role.value@,
        None => Seq::empty(),
    }
}

pub open spec fn precedence_text(block: PrecedenceBlock) -> Seq<char> {
    (if block.is_override {
        "precedence override"@
    } else {
        "precedence"@
    }) + " {\n"@ + concat(block.entries@.map_values(|e: PrecEntry| entry_text(e))) + "}\n\n"@
}

/// Appends `ops`, each as `.nh` text, separated by `sep`.
fn append_refs(out: &mut String, ops: &Vec<OpRef>, sep: &str)
    ensures
        final(out)@ == old(out)@ + refs_text(ops@, sep@),
{
    let ghost start = out@;
    let ghost parts = ops@.map_values(|o: OpRef| op_ref_text(o));
    let mut k: usize = 0;
    proof { assert(parts.take(0) =~= Seq::<Seq<char>>::empty()); }
    while k < ops.len()
        invariant
            k <= ops@.len(),
            parts == ops@.map_values(|o: OpRef| op_ref_text(o)),
            out@ == start + joined(parts.take(k as int), sep@),
        decreases ops@.len() - k,
    {
        proof { lemma_joined_step(parts, k as int, sep@); }
        let ghost o0 = out@;
        if k > 0 {
            out.append(sep);
        }
        let r = op_ref(&ops[k]);
        out.append(r.as_str());
        proof {
            if k == 0 {
                assert(out@ =~= start + joined(parts.take(k + 1), sep@));
            } else {
                assert(out@ =~= start + joined(parts.take(k + 1), sep@));
            }
        }
        k = k + 1;
    }
    proof { assert(parts.take(ops@.len() as int) =~= parts); }
}

/// Appends the values of `v` separated by `sep`.
fn append_values(out: &mut String, v: &Vec<crate::syntax::source::Spanned<String>>, sep: &str)
    ensures
        final(out)@ == old(out)@ + joined(values(v@), sep@),
{
    let ghost start = out@;
    let ghost parts = values(v@);
    let mut k: usize = 0;
    proof { assert(parts.take(0) =~= Seq::<Seq<char>>::empty()); }
    while k < v.len()
        invariant
            k <= v@.len(),
            parts == values(v@),
            out@ == start + joined(parts.take(k as int), sep@),
        decreases v@.len() - k,
    {
        proof { lemma_joined_step(parts, k as int, sep@); }
        if k > 0 {
            out.append(sep);
        }
        out.append(v[k].value.as_str());
        proof { assert(out@ =~= start + joined(parts.take(k + 1), sep@)); }
        k = k + 1;
    }
    proof { assert(parts.take(v@.len() as int) =~= parts); }
}

fn append_placement(out: &mut String, op: &crate::syntax::ast::OpEntry)
    ensures
        final(out)@ == old(out)@ + placement_text(*op),
{
    let ghost o0 = out@;
    match &op.placement {
        Some(p) => {
            out.append(
                match p.direction {
                    Direction::Above => " above ",
                    Direction::Below => " below ",
                },
            );
            out.append(quote(p.anchor.value.as_str()).as_str());
        },
        None => {},
    }
    proof { assert(out@ =~= o0 + placement_text(*op)); }
}

fn append_lazy(out: &mut String, op: &crate::syntax::ast::OpEntry)
    ensures
        final(out)@ == old(out)@ + lazy_text(*op),
{
    let ghost o0 = out@;
    if op.lazy.len() > 0 {
        out.append(" lazy(");
        append_values(out, &op.lazy, ", ");
        out.append(")");
    }
    proof { assert(out@ =~= o0 + lazy_text(*op)); }
}

fn append_role(out: &mut String, op: &crate::syntax::ast::OpEntry)
    ensures
        final(out)@ == old(out)@ + role_text(*op),
{
    let ghost o0 = out@;
    match &op.role {
        Some(role) => {
            out.append(" -> ");
            out.append(role.value.as_str());
        },
        None => {},
    }
    proof { assert(out@ =~= o0 + role_text(*op)); }
}

fn fixity_word(f: Fixity) -> (s: &'static str)
    ensures
        s@ == fixity_text(f),
{
    match f {
        Fixity::Left => "left",
        Fixity::Right => "right",
        Fixity::Prefix => "prefix",
        Fixity::Postfix => "postfix",
    }
}

fn render_entry(out: &mut String, entry: &PrecEntry)
    ensures
        final(out)@ == old(out)@ + entry_text(*entry),
{
    let ghost o0 = out@;
    match entry {
        PrecEntry::Atom { rule, .. } => {
            out.append("  atom ");
            out.append(rule.value.as_str());
            out.append(";\n");
            proof { assert(out@ =~= o0 + ("  atom "@ + rule.value@ + ";\n"@)); }
        },
        PrecEntry::Remove { ops, .. } => {
            out.append("  remove ");
            append_refs(out, ops, " ");
            out.append(";\n");
            proof { assert(out@ =~= o0 + ("  remove "@ + refs_text(ops@, " "@) + ";\n"@)); }
        },
        PrecEntry::Op(op) => {
            out.append("  ");
            out.append(fixity_word(op.fixity.value));
            out.append(" ");
            append_refs(out, &op.ops, " | ");
            append_placement(out, op);
            append_lazy(out, op);
            append_role(out, op);
            out.append(";\n");
            proof {
                assert(out@ =~= o0 + ("  "@ + fixity_text(op.fixity.value) + " "@ + refs_text(op.ops@, " | "@)
                    + placement_text(*op) + lazy_text(*op) + role_text(*op) + ";\n"@));
            }
        },
    }
}

fn render_precedence(out: &mut String, block: &PrecedenceBlock)
    ensures
        final(out)@ == old(out)@ + precedence_text(*block),
{
    out.append(if block.is_override { "precedence override" } else { "precedence" });
    out.append(" {\n");
    let ghost start = out@;
    let ghost lines = block.entries@.map_values(|e: PrecEntry| entry_text(e));
    let mut e: usize = 0;
    proof { assert(lines.take(0) =~= Seq::<Seq<char>>::empty()); }
    while e < block.entries.len()
        invariant
            e <= block.entries@.len(),
            lines == block.entries@.map_values(|e: PrecEntry| entry_text(e)),
            out@ == start + concat(lines.take(e as int)),
        decreases block.entries@.len() - e,
    {
        proof { lemma_concat_step(lines, e as int); }
        render_entry(out, &block.entries[e]);
        proof { assert(out@ =~= start + concat(lines.take(e + 1))); }
        e = e + 1;
    }
    proof { assert(lines.take(block.entries@.len() as int) =~= lines); }
    out.append("}\n\n");
}

pub open spec fn quoted_values(v: Seq<crate::syntax::source::Spanned<String>>) -> Seq<Seq<char>> {
    v.map_values(|s: crate::syntax::source::Spanned<String>| quoted(s.value@))
}

fn word_list(out: &mut String, words: &Vec<crate::syntax::source::Spanned<String>>)
    ensures
        final(out)@ == old(out)@ + joined(quoted_values(words@), " "@),
{
    let ghost start = out@;
    let ghost parts = quoted_values(words@);
    let mut k: usize = 0;
    proof { assert(parts.take(0) =~= Seq::<Seq<char>>::empty()); }
    while k < words.len()
        invariant
            k <= words@.len(),
            parts == quoted_values(words@),
            out@ == start + joined(parts.take(k as int), " "@),
        decreases words@.len() - k,
    {
        proof { lemma_joined_step(parts, k as int, " "@); }
        if k > 0 {
            out.append(" ");
        }
        out.append(quote(words[k].value.as_str()).as_str());
        proof { assert(out@ =~= start + joined(parts.take(k + 1), " "@)); }
        k = k + 1;
    }
    proof { assert(parts.take(words@.len() as int) =~= parts); }
}

/// A blank line after a section that printed anything.
pub open spec fn gap(n: nat) -> Seq<char> {
    if n > 0 {
        "\n"@
    } else {
        Seq::empty()
    }
}

pub open spec fn token_flags(t: TokenDef) -> Seq<char> {
    (if t.atomic {
        "@ "@
    } else {
        Seq::empty()
    }) + (if t.case_insensitive {
        "case-insensitive "@
    } else {
        Seq::empty()
    })
}

pub open spec fn token_line(t: TokenDef) -> Seq<char> {
    "token "@ + t.name.value@ + " = "@ + token_flags(t) + expr_text(t.body, 0) + ";\n"@
}

/// The alternatives of a rule, one per line, the first after `=` and the
/// others after `|`.
pub open spec fn alts_text(alts: Seq<Alternative>) -> Seq<char>
    decreases alts.len(),
{
    if alts.len() == 0 {
        Seq::empty()
    } else {
        alts_text(alts.drop_last()) + (if alts.len() == 1 {
            "  = "@
        } else {
            "  | "@
        }) + alternative_text(alts.last()) + "\n"@
    }
}

pub open spec fn rule_text(r: RuleDef) -> Seq<char> {
    (if r.silent {
        "silent rule "@
    } else {
        "rule "@
    }) + r.name.value@ + "\n"@ + alts_text(r.alternatives@) + "  ;\n"@
}

fn render_rule(out: &mut String, rule: &RuleDef)
    ensures
        final(out)@ == old(out)@ + rule_text(*rule),
{
    let ghost o0 = out@;
    out.append(if rule.silent { "silent rule " } else { "rule " });
    out.append(rule.name.value.as_str());
    out.append("\n");
    let ghost start = out@;
    let mut a: usize = 0;
    proof { assert(rule.alternatives@.take(0) =~= Seq::<Alternative>::empty()); }
    while a < rule.alternatives.len()
        invariant
            a <= rule.alternatives@.len(),
            out@ == start + alts_text(rule.alternatives@.take(a as int)),
        decreases rule.alternatives@.len() - a,
    {
        proof {
            assert(rule.alternatives@.take(a + 1).drop_last() =~= rule.alternatives@.take(a as int));
            assert(rule.alternatives@.take(a + 1).last() == rule.alternatives@[a as int]);
        }
        let ghost o1 = out@;
        out.append(if a == 0 { "  = " } else { "  | " });
        out.append(alternative_source(&rule.alternatives[a]).as_str());
        out.append("\n");
        proof {
            assert(out@ =~= start + alts_text(rule.alternatives@.take(a + 1)));
        }
        a = a + 1;
    }
    proof { assert(rule.alternatives@.take(rule.alternatives@.len() as int) =~= rule.alternatives@); }
    out.append("  ;\n");
    proof { assert(out@ =~= o0 + rule_text(*rule)); }
}

pub open spec fn uses_text(ast: Ast) -> Seq<char> {
    concat(ast.uses@.map_values(|x: UsePreset| "use operators::"@ + x.preset.value@ + ";\n"@)) + gap(ast.uses@.len())
}

fn render_uses(out: &mut String, ast: &Ast)
    ensures
        final(out)@ == old(out)@ + uses_text(*ast),
{
    let ghost o0 = out@;
    let ghost lines = ast.uses@.map_values(|x: UsePreset| "use operators::"@ + x.preset.value@ + ";\n"@);
    let mut i: usize = 0;
    proof { assert(lines.take(0) =~= Seq::<Seq<char>>::empty()); }
    while i < ast.uses.len()
        invariant
            i <= ast.uses@.len(),
            lines == ast.uses@.map_values(|x: UsePreset| "use operators::"@ + x.preset.value@ + ";\n"@),
            out@ == o0 + concat(lines.take(i as int)),
        decreases ast.uses@.len() - i,
    {
        proof { lemma_concat_step(lines, i as int); }
        let x = &ast.uses[i];
        let ghost ob = out@;
        {
            out.append("use operators::");
            out.append(x.preset.value.as_str());
            out.append(";\n");
        }
        proof {
            assert(out@ =~= ob + lines[i as int]);
            assert(out@ =~= o0 + concat(lines.take(i + 1)));
        }
        i = i + 1;
    }
    proof { assert(lines.take(ast.uses@.len() as int) =~= lines); }
    let ghost o2 = out@;
    if ast.uses.len() > 0 {
        out.append("\n");
    }
    proof { assert(out@ =~= o2 + gap(ast.uses@.len())); }
}

pub open spec fn skips_text(ast: Ast) -> Seq<char> {
    concat(ast.skips@.map_values(|x: SkipDef| "skip "@ + x.name.value@ + " = "@ + expr_text(x.body, 0) + ";\n"@)) + gap(ast.skips@.len())
}

fn render_skips(out: &mut String, ast: &Ast)
    ensures
        final(out)@ == old(out)@ + skips_text(*ast),
{
    let ghost o0 = out@;
    let ghost lines = ast.skips@.map_values(|x: SkipDef| "skip "@ + x.name.value@ + " = "@ + expr_text(x.body, 0) + ";\n"@);
    let mut i: usize = 0;
    proof { assert(lines.take(0) =~= Seq::<Seq<char>>::empty()); }
    while i < ast.skips.len()
        invariant
            i <= ast.skips@.len(),
            lines == ast.skips@.map_values(|x: SkipDef| "skip "@ + x.name.value@ + " = "@ + expr_text(x.body, 0) + ";\n"@),
            out@ == o0 + concat(lines.take(i as int)),
        decreases ast.skips@.len() - i,
    {
        proof { lemma_concat_step(lines, i as int); }
        let x = &ast.skips[i];
        let ghost ob = out@;
        {
            out.append("skip ");
            out.append(x.name.value.as_str());
            out.append(" = ");
            out.append(expr(&x.body, Prec::Top).as_str());
            out.append(";\n");
        }
        proof {
            assert(out@ =~= ob + lines[i as int]);
            assert(out@ =~= o0 + concat(lines.take(i + 1)));
        }
        i = i + 1;
    }
    proof { assert(lines.take(ast.skips@.len() as int) =~= lines); }
    let ghost o2 = out@;
    if ast.skips.len() > 0 {
        out.append("\n");
    }
    proof { assert(out@ =~= o2 + gap(ast.skips@.len())); }
}

pub open spec fn tokens_text(ast: Ast) -> Seq<char> {
    concat(ast.tokens@.map_values(|x: TokenDef| token_line(x))) + gap(ast.tokens@.len())
}

fn render_tokens(out: &mut String, ast: &Ast)
    ensures
        final(out)@ == old(out)@ + tokens_text(*ast),
{
    let ghost o0 = out@;
    let ghost lines = ast.tokens@.map_values(|x: TokenDef| token_line(x));
    let mut i: usize = 0;
    proof { assert(lines.take(0) =~= Seq::<Seq<char>>::empty()); }
    while i < ast.tokens.len()
        invariant
            i <= ast.tokens@.len(),
            lines == ast.tokens@.map_values(|x: TokenDef| token_line(x)),
            out@ == o0 + concat(lines.take(i as int)),
        decreases ast.tokens@.len() - i,
    {
        proof { lemma_concat_step(lines, i as int); }
        let x = &ast.tokens[i];
        let ghost ob = out@;
        {
            out.append("token ");
            out.append(x.name.value.as_str());
            out.append(" = ");
            let ghost o1 = out@;
            if x.atomic {
                out.append("@ ");
            }
            if x.case_insensitive {
                out.append("case-insensitive ");
            }
            proof { assert(out@ =~= o1 + token_flags(*x)); }
            out.append(expr(&x.body, Prec::Top).as_str());
            out.append(";\n");
        }
        proof {
            assert(out@ =~= ob + lines[i as int]);
            assert(out@ =~= o0 + concat(lines.take(i + 1)));
        }
        i = i + 1;
    }
    proof { assert(lines.take(ast.tokens@.len() as int) =~= lines); }
    let ghost o2 = out@;
    if ast.tokens.len() > 0 {
        out.append("\n");
    }
    proof { assert(out@ =~= o2 + gap(ast.tokens@.len())); }
}

pub open spec fn reserved_text(ast: Ast) -> Seq<char> {
    concat(ast.reserved@.map_values(|x: ReservedDef| "reserved from "@ + x.token.value@ + " { "@ + joined(quoted_values(x.words@), " "@) + " }\n"@)) + gap(ast.reserved@.len())
}

fn render_reserved(out: &mut String, ast: &Ast)
    ensures
        final(out)@ == old(out)@ + reserved_text(*ast),
{
    let ghost o0 = out@;
    let ghost lines = ast.reserved@.map_values(|x: ReservedDef| "reserved from "@ + x.token.value@ + " { "@ + joined(quoted_values(x.words@), " "@) + " }\n"@);
    let mut i: usize = 0;
    proof { assert(lines.take(0) =~= Seq::<Seq<char>>::empty()); }
    while i < ast.reserved.len()
        invariant
            i <= ast.reserved@.len(),
            lines == ast.reserved@.map_values(|x: ReservedDef| "reserved from "@ + x.token.value@ + " { "@ + joined(quoted_values(x.words@), " "@) + " }\n"@),
            out@ == o0 + concat(lines.take(i as int)),
        decreases ast.reserved@.len() - i,
    {
        proof { lemma_concat_step(lines, i as int); }
        let x = &ast.reserved[i];
        let ghost ob = out@;
        {
            out.append("reserved from ");
            out.append(x.token.value.as_str());
            out.append(" { ");
            word_list(out, &x.words);
            out.append(" }\n");
        }
        proof {
            assert(out@ =~= ob + lines[i as int]);
            assert(out@ =~= o0 + concat(lines.take(i + 1)));
        }
        i = i + 1;
    }
    proof { assert(lines.take(ast.reserved@.len() as int) =~= lines); }
    let ghost o2 = out@;
    if ast.reserved.len() > 0 {
        out.append("\n");
    }
    proof { assert(out@ =~= o2 + gap(ast.reserved@.len())); }
}

pub open spec fn boundaries_text(ast: Ast) -> Seq<char> {
    concat(ast.boundaries@.map_values(|x: BoundaryDef| "boundary "@ + x.token.value@ + " = "@ + expr_text(x.body, 0) + ";\n"@)) + gap(ast.boundaries@.len())
}

fn render_boundaries(out: &mut String, ast: &Ast)
    ensures
        final(out)@ == old(out)@ + boundaries_text(*ast),
{
    let ghost o0 = out@;
    let ghost lines = ast.boundaries@.map_values(|x: BoundaryDef| "boundary "@ + x.token.value@ + " = "@ + expr_text(x.body, 0) + ";\n"@);
    let mut i: usize = 0;
    proof { assert(lines.take(0) =~= Seq::<Seq<char>>::empty()); }
    while i < ast.boundaries.len()
        invariant
            i <= ast.boundaries@.len(),
            lines == ast.boundaries@.map_values(|x: BoundaryDef| "boundary "@ + x.token.value@ + " = "@ + expr_text(x.body, 0) + ";\n"@),
            out@ == o0 + concat(lines.take(i as int)),
        decreases ast.boundaries@.len() - i,
    {
        proof { lemma_concat_step(lines, i as int); }
        let x = &ast.boundaries[i];
        let ghost ob = out@;
        {
            out.append("boundary ");
            out.append(x.token.value.as_str());
            out.append(" = ");
            out.append(expr(&x.body, Prec::Top).as_str());
            out.append(";\n");
        }
        proof {
            assert(out@ =~= ob + lines[i as int]);
            assert(out@ =~= o0 + concat(lines.take(i + 1)));
        }
        i = i + 1;
    }
    proof { assert(lines.take(ast.boundaries@.len() as int) =~= lines); }
    let ghost o2 = out@;
    if ast.boundaries.len() > 0 {
        out.append("\n");
    }
    proof { assert(out@ =~= o2 + gap(ast.boundaries@.len())); }
}

pub open spec fn guards_text(ast: Ast) -> Seq<char> {
    concat(ast.guards@.map_values(|x: GuardDef| "guard from "@ + x.token.value@ + " { "@ + joined(quoted_values(x.words@), " "@) + " }\n"@)) + gap(ast.guards@.len())
}

fn render_guards(out: &mut String, ast: &Ast)
    ensures
        final(out)@ == old(out)@ + guards_text(*ast),
{
    let ghost o0 = out@;
    let ghost lines = ast.guards@.map_values(|x: GuardDef| "guard from "@ + x.token.value@ + " { "@ + joined(quoted_values(x.words@), " "@) + " }\n"@);
    let mut i: usize = 0;
    proof { assert(lines.take(0) =~= Seq::<Seq<char>>::empty()); }
    while i < ast.guards.len()
        invariant
            i <= ast.guards@.len(),
            lines == ast.guards@.map_values(|x: GuardDef| "guard from "@ + x.token.value@ + " { "@ + joined(quoted_values(x.words@), " "@) + " }\n"@),
            out@ == o0 + concat(lines.take(i as int)),
        decreases ast.guards@.len() - i,
    {
        proof { lemma_concat_step(lines, i as int); }
        let x = &ast.guards[i];
        let ghost ob = out@;
        {
            out.append("guard from ");
            out.append(x.token.value.as_str());
            out.append(" { ");
            word_list(out, &x.words);
            out.append(" }\n");
        }
        proof {
            assert(out@ =~= ob + lines[i as int]);
            assert(out@ =~= o0 + concat(lines.take(i + 1)));
        }
        i = i + 1;
    }
    proof { assert(lines.take(ast.guards@.len() as int) =~= lines); }
    let ghost o2 = out@;
    if ast.guards.len() > 0 {
        out.append("\n");
    }
    proof { assert(out@ =~= o2 + gap(ast.guards@.len())); }
}

pub open spec fn rules_text(ast: Ast) -> Seq<char> {
    concat(ast.rules@.map_values(|x: RuleDef| rule_text(x))) + gap(ast.rules@.len())
}

fn render_rules(out: &mut String, ast: &Ast)
    ensures
        final(out)@ == old(out)@ + rules_text(*ast),
{
    let ghost o0 = out@;
    let ghost lines = ast.rules@.map_values(|x: RuleDef| rule_text(x));
    let mut i: usize = 0;
    proof { assert(lines.take(0) =~= Seq::<Seq<char>>::empty()); }
    while i < ast.rules.len()
        invariant
            i <= ast.rules@.len(),
            lines == ast.rules@.map_values(|x: RuleDef| rule_text(x)),
            out@ == o0 + concat(lines.take(i as int)),
        decreases ast.rules@.len() - i,
    {
        proof { lemma_concat_step(lines, i as int); }
        let x = &ast.rules[i];
        let ghost ob = out@;
        {
            render_rule(out, x);
        }
        proof {
            assert(out@ =~= ob + lines[i as int]);
            assert(out@ =~= o0 + concat(lines.take(i + 1)));
        }
        i = i + 1;
    }
    proof { assert(lines.take(ast.rules@.len() as int) =~= lines); }
    let ghost o2 = out@;
    if ast.rules.len() > 0 {
        out.append("\n");
    }
    proof { assert(out@ =~= o2 + gap(ast.rules@.len())); }
}

pub open spec fn recovers_text(ast: Ast) -> Seq<char> {
    concat(ast.recovers@.map_values(|x: RecoverDef| "recover "@ + x.rule.value@ + " sync "@ + expr_text(x.sync, 0) + ";\n"@))
}

fn render_recovers(out: &mut String, ast: &Ast)
    ensures
        final(out)@ == old(out)@ + recovers_text(*ast),
{
    let ghost o0 = out@;
    let ghost lines = ast.recovers@.map_values(|x: RecoverDef| "recover "@ + x.rule.value@ + " sync "@ + expr_text(x.sync, 0) + ";\n"@);
    let mut i: usize = 0;
    proof { assert(lines.take(0) =~= Seq::<Seq<char>>::empty()); }
    while i < ast.recovers.len()
        invariant
            i <= ast.recovers@.len(),
            lines == ast.recovers@.map_values(|x: RecoverDef| "recover "@ + x.rule.value@ + " sync "@ + expr_text(x.sync, 0) + ";\n"@),
            out@ == o0 + concat(lines.take(i as int)),
        decreases ast.recovers@.len() - i,
    {
        proof { lemma_concat_step(lines, i as int); }
        let x = &ast.recovers[i];
        let ghost ob = out@;
        {
            out.append("recover ");
            out.append(x.rule.value.as_str());
            out.append(" sync ");
            out.append(expr(&x.sync, Prec::Top).as_str());
            out.append(";\n");
        }
        proof {
            assert(out@ =~= ob + lines[i as int]);
            assert(out@ =~= o0 + concat(lines.take(i + 1)));
        }
        i = i + 1;
    }
    proof { assert(lines.take(ast.recovers@.len() as int) =~= lines); }
}

pub open spec fn allows_text(ast: Ast) -> Seq<char> {
    concat(ast.allows@.map_values(|x: AllowDef| "allow "@ + x.lint.value@ + " in "@ + x.rule.value@ + ";\n"@))
}

fn render_allows(out: &mut String, ast: &Ast)
    ensures
        final(out)@ == old(out)@ + allows_text(*ast),
{
    let ghost o0 = out@;
    let ghost lines = ast.allows@.map_values(|x: AllowDef| "allow "@ + x.lint.value@ + " in "@ + x.rule.value@ + ";\n"@);
    let mut i: usize = 0;
    proof { assert(lines.take(0) =~= Seq::<Seq<char>>::empty()); }
    while i < ast.allows.len()
        invariant
            i <= ast.allows@.len(),
            lines == ast.allows@.map_values(|x: AllowDef| "allow "@ + x.lint.value@ + " in "@ + x.rule.value@ + ";\n"@),
            out@ == o0 + concat(lines.take(i as int)),
        decreases ast.allows@.len() - i,
    {
        proof { lemma_concat_step(lines, i as int); }
        let x = &ast.allows[i];
        let ghost ob = out@;
        {
            out.append("allow ");
            out.append(x.lint.value.as_str());
            out.append(" in ");
            out.append(x.rule.value.as_str());
            out.append(";\n");
        }
        proof {
            assert(out@ =~= ob + lines[i as int]);
            assert(out@ =~= o0 + concat(lines.take(i + 1)));
        }
        i = i + 1;
    }
    proof { assert(lines.take(ast.allows@.len() as int) =~= lines); }
}

pub open spec fn expects_text(ast: Ast) -> Seq<char> {
    concat(ast.expects@.map_values(|x: ExpectDef| "expect "@ + quoted(x.literal.value@) + " in "@ + joined(values(x.target@), "."@) + " as "@ + quoted(x.message.value@) + ";\n"@))
}

fn render_expects(out: &mut String, ast: &Ast)
    ensures
        final(out)@ == old(out)@ + expects_text(*ast),
{
    let ghost o0 = out@;
    let ghost lines = ast.expects@.map_values(|x: ExpectDef| "expect "@ + quoted(x.literal.value@) + " in "@ + joined(values(x.target@), "."@) + " as "@ + quoted(x.message.value@) + ";\n"@);
    let mut i: usize = 0;
    proof { assert(lines.take(0) =~= Seq::<Seq<char>>::empty()); }
    while i < ast.expects.len()
        invariant
            i <= ast.expects@.len(),
            lines == ast.expects@.map_values(|x: ExpectDef| "expect "@ + quoted(x.literal.value@) + " in "@ + joined(values(x.target@), "."@) + " as "@ + quoted(x.message.value@) + ";\n"@),
            out@ == o0 + concat(lines.take(i as int)),
        decreases ast.expects@.len() - i,
    {
        proof { lemma_concat_step(lines, i as int); }
        let x = &ast.expects[i];
        let ghost ob = out@;
        {
            out.append("expect ");
            out.append(quote(x.literal.value.as_str()).as_str());
            out.append(" in ");
            append_values(out, &x.target, ".");
            out.append(" as ");
            out.append(quote(x.message.value.as_str()).as_str());
            out.append(";\n");
        }
        proof {
            assert(out@ =~= ob + lines[i as int]);
            assert(out@ =~= o0 + concat(lines.take(i + 1)));
        }
        i = i + 1;
    }
    proof { assert(lines.take(ast.expects@.len() as int) =~= lines); }
}

pub open spec fn precedence_text_all(ast: Ast) -> Seq<char> {
    concat(ast.precedence@.map_values(|x: PrecedenceBlock| precedence_text(x)))
}

fn render_blocks(out: &mut String, ast: &Ast)
    ensures
        final(out)@ == old(out)@ + precedence_text_all(*ast),
{
    let ghost o0 = out@;
    let ghost lines = ast.precedence@.map_values(|x: PrecedenceBlock| precedence_text(x));
    let mut i: usize = 0;
    proof { assert(lines.take(0) =~= Seq::<Seq<char>>::empty()); }
    while i < ast.precedence.len()
        invariant
            i <= ast.precedence@.len(),
            lines == ast.precedence@.map_values(|x: PrecedenceBlock| precedence_text(x)),
            out@ == o0 + concat(lines.take(i as int)),
        decreases ast.precedence@.len() - i,
    {
        proof { lemma_concat_step(lines, i as int); }
        let x = &ast.precedence[i];
        let ghost ob = out@;
        {
            render_precedence(out, x);
        }
        proof {
            assert(out@ =~= ob + lines[i as int]);
            assert(out@ =~= o0 + concat(lines.take(i + 1)));
        }
        i = i + 1;
    }
    proof { assert(lines.take(ast.precedence@.len() as int) =~= lines); }
}

pub open spec fn name_text(ast: Ast) -> Seq<char> {
    match ast.grammar_name {
        Some(name) => "grammar "@ + name.value@ + ";\n\n"@,
        None => Seq::empty(),
    }
}

pub open spec fn keywords_text(ast: Ast) -> Seq<char> {
    match ast.keywords_case {
        Some(mode) => "keywords "@ + (if mode.value == CaseMode::Insensitive {
            "case-insensitive"@
        } else {
            "case-sensitive"@
        }) + ";\n\n"@,
        None => Seq::empty(),
    }
}

/// The whole grammar as normalised `.nh` text.
pub open spec fn render_text(ast: Ast) -> Seq<char> {
    if ast.is_blank() {
        Seq::empty()
    } else {
        name_text(ast) + uses_text(ast) + keywords_text(ast) + precedence_text_all(ast) + skips_text(ast)
            + tokens_text(ast) + reserved_text(ast) + boundaries_text(ast) + guards_text(ast) + rules_text(ast)
            + recovers_text(ast) + allows_text(ast) + expects_text(ast)
    }
}

/// Renders the whole grammar as normalised `.nh` text, section by section:
/// the declaration, presets, keyword mode, precedence blocks, skips,
/// tokens, reserved words, boundaries, guards, rules, recoveries, allows
/// and expects. An empty grammar renders as nothing.
pub fn render(ast: &Ast) -> (out: String)
    ensures
        out@ == render_text(*ast),
        ast.is_blank() ==> out@.len() == 0,
{
    let mut out = String::new();
    if ast.grammar_name.is_none() && ast.imports.len() == 0 && ast.uses.len() == 0
        && ast.keywords_case.is_none() && ast.precedence.len() == 0 && ast.skips.len() == 0
        && ast.tokens.len() == 0 && ast.reserved.len() == 0 && ast.guards.len() == 0
        && ast.boundaries.len() == 0 && ast.rules.len() == 0 && ast.recovers.len() == 0
        && ast.expects.len() == 0 && ast.allows.len() == 0 {
        return out;
    }
    match &ast.grammar_name {
        Some(name) => {
            out.append("grammar ");
            out.append(name.value.as_str());
            out.append(";\n\n");
        },
        None => {},
    }
    proof { assert(out@ =~= name_text(*ast)); }
    render_uses(&mut out, ast);
    let ghost o1 = out@;
    match &ast.keywords_case {
        Some(mode) => {
            out.append("keywords ");
            out.append(
                match mode.value {
                    CaseMode::Insensitive => "case-insensitive",
                    CaseMode::Sensitive => "case-sensitive",
                },
            );
            out.append(";\n\n");
        },
        None => {},
    }
    proof { assert(out@ =~= o1 + keywords_text(*ast)); }
    render_blocks(&mut out, ast);
    render_skips(&mut out, ast);
    render_tokens(&mut out, ast);
    render_reserved(&mut out, ast);
    render_boundaries(&mut out, ast);
    render_guards(&mut out, ast);
    render_rules(&mut out, ast);
    render_recovers(&mut out, ast);
    render_allows(&mut out, ast);
    render_expects(&mut out, ast);
    proof { assert(out@ =~= render_text(*ast)); }
    out
}

} // verus!
