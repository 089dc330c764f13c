//! `Place` generation: assignable locations.
//!
//! A `Place` holds values, not unevaluated nodes: its expression fields are
//! evaluated once, when the place is resolved, which is what makes
//! `a[f()] += 1` call `f()` exactly once.

use vstd::prelude::*;
use crate::codegen::{among, ident, ident_spec, pascal_name, pascal_name_spec, sorted_distinct, strictly_sorted, HEADER};
use crate::codegen::params::first_bindings;
use crate::lower::{Binding, Cardinality, Lowered, LoweredAlternative};
use crate::text::{owned, str_eq};

verus! {

/// Whether a binding names something (a token) rather than a value.
pub open spec fn is_token_field(b: Binding) -> bool {
    b.token is Some
}

/// The Rust type of a field of a place variant.
pub open spec fn field_ty(b: Binding) -> Seq<char> {
    if b.token is Some {
        let base = if b.token->0.case_insensitive { "&'a Name"@ } else { "&'a str"@ };
        match b.cardinality {
            Cardinality::One => base,
            Cardinality::Optional => "Option<"@ + base + ">"@,
            Cardinality::Many => "Vec<"@ + base + ">"@,
        }
    } else {
        "Out"@
    }
}

pub open spec fn field_doc(b: Binding) -> Seq<char> {
    if b.token is Some {
        "a name, not a value"@
    } else {
        "evaluated once, when the place was resolved"@
    }
}

/// The `place`-marked alternatives.
pub open spec fn places(alts: Seq<LoweredAlternative>) -> Seq<LoweredAlternative> {
    alts.filter(|a: LoweredAlternative| a.place)
}

pub open spec fn any_token(fs: Seq<Binding>) -> bool {
    exists|k: int| 0 <= k < fs.len() && (#[trigger] fs[k]).token is Some
}

pub open spec fn any_value(fs: Seq<Binding>) -> bool {
    exists|k: int| 0 <= k < fs.len() && (#[trigger] fs[k]).token is None
}

pub const COMPILE_ERROR_MID: &'static str = "` is marked `place`, but its binding `";

pub const COMPILE_ERROR_TAIL: &'static str = "` is optional or \\\n     repeated. An assignable location must resolve to exactly one \\\n     value per field, because the place is evaluated once up front.\"\n);\n";

/// A build-time error for each expression binding of a place that is not
/// exactly one value.
pub open spec fn binding_errors(alt: LoweredAlternative, bs: Seq<Binding>) -> Seq<char>
    decreases bs.len(),
{
    if bs.len() == 0 {
        Seq::empty()
    } else {
        let b = bs.last();
        binding_errors(alt, bs.drop_last()) + if b.token is None && b.cardinality != Cardinality::One {
            "compile_error!(\n    \"`"@ + alt.pest_rule@ + COMPILE_ERROR_MID@ + b.name@ + COMPILE_ERROR_TAIL@
        } else {
            Seq::empty()
        }
    }
}

pub open spec fn all_binding_errors(ps: Seq<LoweredAlternative>) -> Seq<char>
    decreases ps.len(),
{
    if ps.len() == 0 {
        Seq::empty()
    } else {
        all_binding_errors(ps.drop_last()) + binding_errors(ps.last(), ps.last().bindings@)
    }
}

pub open spec fn field_lines(fs: Seq<Binding>) -> Seq<char>
    decreases fs.len(),
{
    if fs.len() == 0 {
        Seq::empty()
    } else {
        let f = fs.last();
        field_lines(fs.drop_last()) + "        /// `"@ + f.name@ + "` — "@ + field_doc(f) + ".\n        "@ + ident_spec(
            f.name@,
        ) + ": "@ + field_ty(f) + ",\n"@
    }
}

pub const MARKER_FIELD: &'static str = "        #[doc(hidden)]\n        _marker: ::core::marker::PhantomData<&'a ()>,\n";

pub const OUT_FIELD: &'static str = "        #[doc(hidden)]\n        _out: ::core::marker::PhantomData<Out>,\n";

pub open spec fn variant_text(alt: LoweredAlternative) -> Seq<char> {
    let fs = first_bindings(alt.bindings@);
    "    /// From `"@ + alt.pest_rule@ + "` (`-> "@ + alt.label@ + " place`).\n    "@ + pascal_name_spec(alt.pest_rule@)
        + " {\n        /// The whole target, for diagnostics.\n        span: Span,\n"@ + field_lines(fs) + (if !any_token(fs) {
        MARKER_FIELD@
    } else {
        ""@
    }) + (if !any_value(fs) {
        OUT_FIELD@
    } else {
        ""@
    }) + "    },\n"@
}

pub open spec fn variants_text(ps: Seq<LoweredAlternative>) -> Seq<char>
    decreases ps.len(),
{
    if ps.len() == 0 {
        Seq::empty()
    } else {
        variants_text(ps.drop_last()) + variant_text(ps.last())
    }
}

pub open spec fn span_arms(ps: Seq<LoweredAlternative>) -> Seq<char>
    decreases ps.len(),
{
    if ps.len() == 0 {
        Seq::empty()
    } else {
        span_arms(ps.drop_last()) + "            Place::"@ + pascal_name_spec(ps.last().pest_rule@) + " { span, .. } => *span,\n"@
    }
}

pub const ENUM_HEAD: &'static str = "/// An assignable location.\n///\n/// One variant per `place`-marked alternative in the grammar. Fields that\n/// name something (an identifier) arrive as nodes; fields that are\n/// expressions arrive **already evaluated**, exactly once.\n#[derive(Debug)]\npub enum Place<'a, Out> {\n";

pub const NEVER_VARIANT: &'static str = "    /// This grammar marks no alternative `place`, so nothing is\n    /// assignable and this enum has no inhabitants.\n    Never(::core::marker::PhantomData<(&'a (), Out)>),\n";

pub const SPAN_HEAD: &'static str = "}\n\nimpl<'a, Out> Place<'a, Out> {\n    /// Where the target appears in the source.\n    pub fn span(&self) -> Span {\n        match self {\n";

pub const NEVER_SPAN: &'static str = "            Place::Never(_) => unreachable!(\"no place variants exist\"),\n";

pub open spec fn enum_spec(ps: Seq<LoweredAlternative>) -> Seq<char> {
    ENUM_HEAD@ + (if ps.len() == 0 { NEVER_VARIANT@ } else { ""@ }) + variants_text(ps) + SPAN_HEAD@
        + (if ps.len() == 0 { NEVER_SPAN@ } else { ""@ }) + span_arms(ps) + "        }\n    }\n}\n\n"@
}

pub const NO_RESOLVER: &'static str = "/// This grammar marks nothing `place`, so nothing is assignable.\npub fn resolve_place<'a, H: Handlers>(\n    _host: &mut H,\n    _node: &'a Expr,\n    _cx: &mut Ctx,\n) -> Result<Place<'a, H::Out>> {\n    Err(Error::runtime(\n        \"nothing is assignable; this grammar marks no alternative `place`\",\n    ))\n}\n\n";

pub const RESOLVER_HEAD: &'static str = "/// Resolves an assignment target into a [`Place`].\n///\n/// The target is **not** evaluated as a value — that is the whole reason\n/// assignment is lazy in its left operand. Expression fields inside the\n/// place *are* evaluated, once, here.\npub fn resolve_place<'a, H: Handlers>(\n    host: &mut H,\n    node: &'a Expr,\n    cx: &mut Ctx,\n) -> Result<Place<'a, H::Out>> {\n    match node {\n        Expr::Atom(a) => resolve_place_";

pub const RESOLVER_TAIL: &'static str = "(host, a, cx),\n        Expr::Prefix { span, .. }\n        | Expr::Postfix { span, .. }\n        | Expr::Infix { span, .. } => Err(Error::runtime(\n            \"this is not an assignable target\",\n        )\n        .at(*span)),\n    }\n}\n\n";

pub const RULE_RESOLVER_MID: &'static str = "<'a, H: Handlers>(\n    host: &mut H,\n    node: &'a ";

pub const RULE_RESOLVER_SIG_TAIL: &'static str = ",\n    cx: &mut Ctx,\n) -> Result<Place<'a, H::Out>> {\n    match node {\n";

pub const RULE_RESOLVER_TAIL: &'static str = "::Expr(e) => resolve_place(host, e, cx),\n        _ => Err(Error::runtime(\n            \"this is not an assignable target; mark the alternative `place` \\\n             in the grammar\",\n        )),\n    }\n}\n\n";

pub const EVALUATED_ONCE: &'static str = "            // Evaluated exactly once: this is what keeps `a[f()] += 1`\n            // from calling `f()` twice.\n            let ";

pub open spec fn field_binds(fs: Seq<Binding>) -> Seq<char>
    decreases fs.len(),
{
    if fs.len() == 0 {
        Seq::empty()
    } else {
        let f = fs.last();
        let id = ident_spec(f.name@);
        field_binds(fs.drop_last()) + if f.token is Some {
            "            let "@ + id + " = &n."@ + id + ";\n"@
        } else {
            EVALUATED_ONCE@ + id + " = eval_expr(host, &n."@ + id + ", cx)?;\n"@
        }
    }
}

pub open spec fn field_inits(fs: Seq<Binding>) -> Seq<char>
    decreases fs.len(),
{
    if fs.len() == 0 {
        Seq::empty()
    } else {
        field_inits(fs.drop_last()) + ", "@ + ident_spec(fs.last().name@)
    }
}

pub open spec fn resolve_arm(ty: Seq<char>, alt: LoweredAlternative) -> Seq<char> {
    let fs = first_bindings(alt.bindings@);
    "        "@ + ty + "::"@ + pascal_name_spec(alt.label@) + "(n) => {\n            let span = n.span;\n"@ + field_binds(fs)
        + "            Ok(Place::"@ + pascal_name_spec(alt.pest_rule@) + " { span"@ + field_inits(fs) + (if !any_token(fs) {
        ", _marker: ::core::marker::PhantomData"@
    } else {
        ""@
    }) + (if !any_value(fs) {
        ", _out: ::core::marker::PhantomData"@
    } else {
        ""@
    }) + " })\n        }\n"@
}

/// The arms for the place alternatives of `rule`.
pub open spec fn rule_arms(ty: Seq<char>, rule: Seq<char>, ps: Seq<LoweredAlternative>) -> Seq<char>
    decreases ps.len(),
{
    if ps.len() == 0 {
        Seq::empty()
    } else {
        rule_arms(ty, rule, ps.drop_last()) + if ps.last().rule@ == rule {
            resolve_arm(ty, ps.last())
        } else {
            Seq::empty()
        }
    }
}

pub open spec fn rule_resolver(rule: Seq<char>, ps: Seq<LoweredAlternative>) -> Seq<char> {
    let ty = pascal_name_spec(rule);
    "fn resolve_place_"@ + ident_spec(rule) + RULE_RESOLVER_MID@ + ty + RULE_RESOLVER_SIG_TAIL@ + rule_arms(ty, rule, ps)
        + "        "@ + ty + RULE_RESOLVER_TAIL@
}

pub open spec fn rule_resolvers(rules: Seq<String>, ps: Seq<LoweredAlternative>) -> Seq<char>
    decreases rules.len(),
{
    if rules.len() == 0 {
        Seq::empty()
    } else {
        rule_resolvers(rules.drop_last(), ps) + rule_resolver(rules.last()@, ps)
    }
}

/// Whether `rules` is the rules owning place alternatives, each once, in
/// order.
pub open spec fn place_rules(ps: Seq<LoweredAlternative>, rules: Seq<String>) -> bool {
    &&& strictly_sorted(rules)
    &&& forall|w: Seq<char>| among(rules, w) <==> exists|k: int| 0 <= k < ps.len() && (#[trigger] ps[k]).rule@ == w
}

pub open spec fn resolver_spec(ps: Seq<LoweredAlternative>, rules: Seq<String>) -> Seq<char> {
    if ps.len() == 0 {
        NO_RESOLVER@
    } else {
        RESOLVER_HEAD@ + ident_spec(rules[0]@) + RESOLVER_TAIL@ + rule_resolvers(rules, ps)
    }
}

pub open spec fn place_file(lowered: Lowered, rules: Seq<String>) -> Seq<char> {
    let ps = places(lowered.alternatives@);
    HEADER@ + "\n#![allow(dead_code, unused_imports)]\n\nuse nh_runtime::{Ctx, Error, Name, Result, Span};\n\n"@
        + (if lowered.has_expr {
        "use super::ast::*;\nuse super::dispatch::{eval_expr, Handlers};\n\n"@
    } else {
        ""@
    }) + all_binding_errors(ps) + enum_spec(ps) + if lowered.has_expr {
        resolver_spec(ps, rules)
    } else {
        Seq::empty()
    }
}

fn fields_of(alt: &LoweredAlternative) -> (fs: Vec<&Binding>)
    ensures
        fs@.len() == first_bindings(alt.bindings@).len(),
        forall|k: int| 0 <= k < fs@.len() ==> *fs@[k] == first_bindings(alt.bindings@)[k],
{
    let bs = &alt.bindings;
    let mut fs: Vec<&Binding> = Vec::new();
    let mut i: usize = 0;
    while i < bs.len()
        invariant
            i <= bs@.len(),
            fs@.len() == first_bindings(bs@.take(i as int)).len(),
            forall|k: int| 0 <= k < fs@.len() ==> *fs@[k] == first_bindings(bs@.take(i as int))[k],
        decreases bs@.len() - i,
    {
        let b = &bs[i];
        let mut dup = false;
        let mut j: usize = 0;
        while j < i
            invariant
                j <= i < bs@.len(),
                *b == bs@[i as int],
                dup == exists|q: int| 0 <= q < j && (#[trigger] bs@[q]).name@ == bs@[i as int].name@,
            decreases i - j,
        {
            if str_eq(bs[j].name.as_str(), b.name.as_str()) {
                dup = true;
            }
            j = j + 1;
        }
        proof {
            let t = bs@.take(i + 1);
            assert(t.drop_last() =~= bs@.take(i as int));
            assert(t.last() == bs@[i as int]);
            if dup {
                let q = choose|q: int| 0 <= q < i && (#[trigger] bs@[q]).name@ == bs@[i as int].name@;
                assert(t[q].name@ == t.last().name@);
            } else {
                assert forall|q: int| 0 <= q < t.len() - 1 implies #[trigger] t[q].name@ != t.last().name@ by {
                    assert(t[q] == bs@[q]);
                }
            }
        }
        if !dup {
            fs.push(b);
            proof {
                assert(first_bindings(bs@.take(i + 1)).drop_last() =~= first_bindings(bs@.take(i as int)));
            }
        }
        i = i + 1;
    }
    proof {
        assert(bs@.take(bs@.len() as int) =~= bs@);
    }
    fs
}

fn binding_errors_text(alt: &LoweredAlternative) -> (t: String)
    ensures
        t@ == binding_errors(*alt, alt.bindings@),
{
    let mut t = String::new();
    let mut k: usize = 0;
    while k < alt.bindings.len()
        invariant
            k <= alt.bindings@.len(),
            t@ == binding_errors(*alt, alt.bindings@.take(k as int)),
        decreases alt.bindings@.len() - k,
    {
        let b = &alt.bindings[k];
        proof {
            assert(alt.bindings@.take(k + 1).drop_last() =~= alt.bindings@.take(k as int));
        }
        if b.token.is_none() && b.cardinality != Cardinality::One {
            t.append("compile_error!(\n    \"`");
            t.append(alt.pest_rule.as_str());
            t.append(COMPILE_ERROR_MID);
            t.append(b.name.as_str());
            t.append(COMPILE_ERROR_TAIL);
        }
        k = k + 1;
    }
    proof {
        assert(alt.bindings@.take(alt.bindings@.len() as int) =~= alt.bindings@);
    }
    t
}

fn field_ty_text(b: &Binding) -> (t: String)
    ensures
        t@ == field_ty(*b),
{
    match &b.token {
        Some(tok) => {
            let base = if tok.case_insensitive { "&'a Name" } else { "&'a str" };
            match b.cardinality {
                Cardinality::One => owned(base),
                Cardinality::Optional => {
                    let mut t = owned("Option<");
                    t.append(base);
                    t.append(">");
                    t
                },
                Cardinality::Many => {
                    let mut t = owned("Vec<");
                    t.append(base);
                    t.append(">");
                    t
                },
            }
        },
        None => owned("Out"),
    }
}

/// The texts for the fields of a variant: declarations, bindings in the
/// resolver, initialisers; and whether any is a token, any a value.
fn fields_text(fs: &Vec<&Binding>) -> (r: (String, String, String, bool, bool))
    ensures
        r.0@ == field_lines(fs@.map_values(|b: &Binding| *b)),
        r.1@ == field_binds(fs@.map_values(|b: &Binding| *b)),
        r.2@ == field_inits(fs@.map_values(|b: &Binding| *b)),
        r.3 == any_token(fs@.map_values(|b: &Binding| *b)),
        r.4 == any_value(fs@.map_values(|b: &Binding| *b)),
{
    let ghost all = fs@.map_values(|b: &Binding| *b);
    let mut lines = String::new();
    let mut binds = String::new();
    let mut inits = String::new();
    let mut tok = false;
    let mut val = false;
    let mut k: usize = 0;
    while k < fs.len()
        invariant
            k <= fs@.len(),
            all == fs@.map_values(|b: &Binding| *b),
            lines@ == field_lines(all.take(k as int)),
            binds@ == field_binds(all.take(k as int)),
            inits@ == field_inits(all.take(k as int)),
            tok == any_token(all.take(k as int)),
            val == any_value(all.take(k as int)),
        decreases fs@.len() - k,
    {
        let f = fs[k];
        proof {
            assert(all.take(k + 1).drop_last() =~= all.take(k as int));
            assert(all.take(k + 1).last() == *f);
            assert forall|q: int| 0 <= q < k implies #[trigger] all.take(k + 1)[q] == all.take(k as int)[q] by {}
        }
        let id = ident(f.name.as_str());
        lines.append("        /// `");
        lines.append(f.name.as_str());
        lines.append("` — ");
        lines.append(if f.token.is_some() { "a name, not a value" } else { "evaluated once, when the place was resolved" });
        lines.append(".\n        ");
        lines.append(id.as_str());
        lines.append(": ");
        lines.append(field_ty_text(f).as_str());
        lines.append(",\n");
        if f.token.is_some() {
            binds.append("            let ");
            binds.append(id.as_str());
            binds.append(" = &n.");
            binds.append(id.as_str());
            binds.append(";\n");
            tok = true;
        } else {
            binds.append(EVALUATED_ONCE);
            binds.append(id.as_str());
            binds.append(" = eval_expr(host, &n.");
            binds.append(id.as_str());
            binds.append(", cx)?;\n");
            val = true;
        }
        inits.append(", ");
        inits.append(id.as_str());
        proof {
            let t = all.take(k + 1);
            if f.token.is_some() {
                assert(t[k as int].token is Some);
            } else {
                assert(t[k as int].token is None);
            }
        }
        k = k + 1;
    }
    proof {
        assert(all.take(fs@.len() as int) =~= all);
    }
    (lines, binds, inits, tok, val)
}

proof fn lemma_fields_view(fs: Seq<&Binding>, alt: LoweredAlternative)
    requires
        fs.len() == first_bindings(alt.bindings@).len(),
        forall|k: int| 0 <= k < fs.len() ==> *fs[k] == first_bindings(alt.bindings@)[k],
    ensures
        fs.map_values(|b: &Binding| *b) == first_bindings(alt.bindings@),
{
    assert(fs.map_values(|b: &Binding| *b) =~= first_bindings(alt.bindings@));
}

proof fn lemma_filter_step(s: Seq<LoweredAlternative>, k: int)
    requires
        0 <= k < s.len(),
    ensures
        places(s.take(k + 1)) == if s[k].place {
            places(s.take(k)).push(s[k])
        } else {
            places(s.take(k))
        },
{
    reveal(Seq::filter);
    assert(s.take(k + 1).drop_last() =~= s.take(k));
}

fn variant_of(alt: &LoweredAlternative) -> (t: String)
    ensures
        t@ == variant_text(*alt),
{
    let fs = fields_of(alt);
    let (lines, _binds, _inits, tok, val) = fields_text(&fs);
    proof {
        lemma_fields_view(fs@, *alt);
    }
    let mut t = owned("    /// From `");
    t.append(alt.pest_rule.as_str());
    t.append("` (`-> ");
    t.append(alt.label.as_str());
    t.append(" place`).\n    ");
    t.append(pascal_name(alt.pest_rule.as_str()).as_str());
    t.append(" {\n        /// The whole target, for diagnostics.\n        span: Span,\n");
    t.append(lines.as_str());
    t.append(if !tok { MARKER_FIELD } else { "" });
    t.append(if !val { OUT_FIELD } else { "" });
    t.append("    },\n");
    t
}

fn span_arm(alt: &LoweredAlternative) -> (t: String)
    ensures
        t@ == "            Place::"@ + pascal_name_spec(alt.pest_rule@) + " { span, .. } => *span,\n"@,
{
    let mut t = owned("            Place::");
    t.append(pascal_name(alt.pest_rule.as_str()).as_str());
    t.append(" { span, .. } => *span,\n");
    t
}

fn resolve_arm_text(ty: &str, alt: &LoweredAlternative) -> (t: String)
    ensures
        t@ == resolve_arm(ty@, *alt),
{
    let fs = fields_of(alt);
    let (_lines, binds, inits, tok, val) = fields_text(&fs);
    proof {
        lemma_fields_view(fs@, *alt);
    }
    let mut t = owned("        ");
    t.append(ty);
    t.append("::");
    t.append(pascal_name(alt.label.as_str()).as_str());
    t.append("(n) => {\n            let span = n.span;\n");
    t.append(binds.as_str());
    t.append("            Ok(Place::");
    t.append(pascal_name(alt.pest_rule.as_str()).as_str());
    t.append(" { span");
    t.append(inits.as_str());
    t.append(if !tok { ", _marker: ::core::marker::PhantomData" } else { "" });
    t.append(if !val { ", _out: ::core::marker::PhantomData" } else { "" });
    t.append(" })\n        }\n");
    t
}

fn rule_resolver_text(rule: &str, alts: &Vec<LoweredAlternative>) -> (t: String)
    ensures
        t@ == rule_resolver(rule@, places(alts@)),
{
    let ty = pascal_name(rule);
    let mut arms = String::new();
    let mut a: usize = 0;
    while a < alts.len()
        invariant
            a <= alts@.len(),
            arms@ == rule_arms(ty@, rule@, places(alts@.take(a as int))),
        decreases alts@.len() - a,
    {
        let alt = &alts[a];
        proof {
            lemma_filter_step(alts@, a as int);
        }
        if alt.place {
            proof {
                let p = places(alts@.take(a + 1));
                assert(p.drop_last() =~= places(alts@.take(a as int)));
            }
            if str_eq(alt.rule.as_str(), rule) {
                arms.append(resolve_arm_text(ty.as_str(), alt).as_str());
            }
        }
        a = a + 1;
    }
    proof {
        assert(alts@.take(alts@.len() as int) =~= alts@);
    }
    let mut t = owned("fn resolve_place_");
    t.append(ident(rule).as_str());
    t.append(RULE_RESOLVER_MID);
    t.append(ty.as_str());
    t.append(RULE_RESOLVER_SIG_TAIL);
    t.append(arms.as_str());
    t.append("        ");
    t.append(ty.as_str());
    t.append(RULE_RESOLVER_TAIL);
    t
}

/// `place.rs`: the `Place` enum, one variant per `place` alternative, and,
/// when the grammar has operators, the resolver that builds one from an
/// assignment target.
pub fn generate(lowered: &Lowered) -> (out: String)
    ensures
        exists|rules: Seq<String>| place_rules(places(lowered.alternatives@), rules) && out@ == place_file(*lowered, rules),
{
    let alts = &lowered.alternatives;
    let mut errors = String::new();
    let mut variants = String::new();
    let mut spans = String::new();
    let mut owners: Vec<String> = Vec::new();
    let mut count: usize = 0;
    let mut k: usize = 0;
    while k < alts.len()
        invariant
            k <= alts@.len(),
            count == places(alts@.take(k as int)).len(),
            count <= k,
            errors@ == all_binding_errors(places(alts@.take(k as int))),
            variants@ == variants_text(places(alts@.take(k as int))),
            spans@ == span_arms(places(alts@.take(k as int))),
            owners@.len() == count,
            forall|q: int| 0 <= q < count ==> (#[trigger] owners@[q])@ == places(alts@.take(k as int))[q].rule@,
        decreases alts@.len() - k,
    {
        let alt = &alts[k];
        proof {
            lemma_filter_step(alts@, k as int);
        }
        if alt.place {
            errors.append(binding_errors_text(alt).as_str());
            variants.append(variant_of(alt).as_str());
            spans.append(span_arm(alt).as_str());
            owners.push(owned(alt.rule.as_str()));
            count = count + 1;
            proof {
                let p = places(alts@.take(k + 1));
                assert(p.drop_last() =~= places(alts@.take(k as int)));
                assert(p.last() == *alt);
            }
        }
        k = k + 1;
    }
    proof {
        assert(alts@.take(alts@.len() as int) =~= alts@);
    }
    let ghost ps = places(alts@);
    let mut out = owned(HEADER);
    out.append("\n#![allow(dead_code, unused_imports)]\n\nuse nh_runtime::{Ctx, Error, Name, Result, Span};\n\n");
    if lowered.has_expr {
        out.append("use super::ast::*;\nuse super::dispatch::{eval_expr, Handlers};\n\n");
    } else {
        out.append("");
    }
    out.append(errors.as_str());
    out.append(ENUM_HEAD);
    out.append(if count == 0 { NEVER_VARIANT } else { "" });
    out.append(variants.as_str());
    out.append(SPAN_HEAD);
    out.append(if count == 0 { NEVER_SPAN } else { "" });
    out.append(spans.as_str());
    out.append("        }\n    }\n}\n\n");

    let rules = sorted_distinct(&owners);
    proof {
        assert forall|w: Seq<char>| among(rules@, w) <==> exists|q: int| 0 <= q < ps.len() && (#[trigger] ps[q]).rule@ == w by {
            if among(owners@, w) {
                let q = choose|q: int| 0 <= q < owners@.len() && (#[trigger] owners@[q])@ == w;
                assert(ps[q].rule@ == w);
            }
            if exists|q: int| 0 <= q < ps.len() && (#[trigger] ps[q]).rule@ == w {
                let q = choose|q: int| 0 <= q < ps.len() && (#[trigger] ps[q]).rule@ == w;
                assert(owners@[q]@ == w);
            }
        }
    }
    if lowered.has_expr {
        if count == 0 {
            out.append(NO_RESOLVER);
        } else {
            proof {
                assert(among(owners@, owners@[0]@));
            }
            out.append(RESOLVER_HEAD);
            out.append(ident(rules[0].as_str()).as_str());
            out.append(RESOLVER_TAIL);
            let mut r: usize = 0;
            let ghost before = out@;
            while r < rules.len()
                invariant
                    r <= rules@.len(),
                    out@ == before + rule_resolvers(rules@.take(r as int), ps),
                    ps == places(alts@),
                    alts == &lowered.alternatives,
                decreases rules@.len() - r,
            {
                out.append(rule_resolver_text(rules[r].as_str(), alts).as_str());
                proof {
                    assert(rules@.take(r + 1).drop_last() =~= rules@.take(r as int));
                }
                r = r + 1;
            }
            proof {
                assert(rules@.take(rules@.len() as int) =~= rules@);
            }
        }
    }
    proof {
        assert(out@ =~= place_file(*lowered, rules@));
    }
    out
}

} // verus!
