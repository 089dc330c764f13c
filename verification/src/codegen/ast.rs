//! Owned AST generation.
//!
//! The parse tree is converted once, up front, into owned types generated
//! from the grammar. Every rule-typed field is `Shared`, which makes the
//! recursive types finite, node sharing free, and a `lazy` binding storable
//! anywhere. This module writes those types and the builders that fill them.

use vstd::prelude::*;
use crate::codegen::{ident, ident_spec, pascal_name, pascal_name_spec, HEADER};
use crate::codegen::params::first_bindings;
use crate::lower::{Binding, Cardinality, Lowered, LoweredAlternative, LoweredRule, LoweredVariant, RuleShape};
use crate::text::{owned, str_eq};

verus! {

// ---------------------------------------------------------------------------
// Looking things up
// ---------------------------------------------------------------------------

/// The index of the last rule named `name`, or -1: the last declaration of a
/// name is the one a lookup by name finds.
pub open spec fn rule_index(rules: Seq<LoweredRule>, name: Seq<char>) -> int
    decreases rules.len(),
{
    if rules.len() == 0 {
        -1
    } else if rules.last().name@ == name {
        rules.len() - 1
    } else {
        rule_index(rules.drop_last(), name)
    }
}

/// The index of the last alternative whose pest rule is `pest_rule`, or -1.
pub open spec fn alt_index(alts: Seq<LoweredAlternative>, pest_rule: Seq<char>) -> int
    decreases alts.len(),
{
    if alts.len() == 0 {
        -1
    } else if alts.last().pest_rule@ == pest_rule {
        alts.len() - 1
    } else {
        alt_index(alts.drop_last(), pest_rule)
    }
}

proof fn lemma_rule_index_range(rules: Seq<LoweredRule>, name: Seq<char>)
    ensures
        -1 <= rule_index(rules, name) < rules.len(),
        rule_index(rules, name) >= 0 ==> rules[rule_index(rules, name)].name@ == name,
    decreases rules.len(),
{
    if rules.len() > 0 && rules.last().name@ != name {
        lemma_rule_index_range(rules.drop_last(), name);
    }
}

proof fn lemma_alt_index_range(alts: Seq<LoweredAlternative>, pest_rule: Seq<char>)
    ensures
        -1 <= alt_index(alts, pest_rule) < alts.len(),
    decreases alts.len(),
{
    if alts.len() > 0 && alts.last().pest_rule@ != pest_rule {
        lemma_alt_index_range(alts.drop_last(), pest_rule);
    }
}

fn find_rule(rules: &Vec<LoweredRule>, name: &str) -> (r: Option<usize>)
    ensures
        match r {
            Some(k) => k as int == rule_index(rules@, name@) && k < rules@.len(),
            None => rule_index(rules@, name@) == -1,
        },
{
    let mut k = rules.len();
    proof {
        assert(rules@.take(rules@.len() as int) =~= rules@);
    }
    while k > 0
        invariant
            k <= rules@.len(),
            rule_index(rules@, name@) == rule_index(rules@.take(k as int), name@),
        decreases k,
    {
        proof {
            assert(rules@.take(k as int).drop_last() =~= rules@.take(k - 1));
        }
        if str_eq(rules[k - 1].name.as_str(), name) {
            return Some(k - 1);
        }
        k = k - 1;
    }
    None
}

fn find_alt(alts: &Vec<LoweredAlternative>, pest_rule: &str) -> (r: Option<usize>)
    ensures
        match r {
            Some(k) => k as int == alt_index(alts@, pest_rule@) && k < alts@.len(),
            None => alt_index(alts@, pest_rule@) == -1,
        },
{
    let mut k = alts.len();
    proof {
        assert(alts@.take(alts@.len() as int) =~= alts@);
    }
    while k > 0
        invariant
            k <= alts@.len(),
            alt_index(alts@, pest_rule@) == alt_index(alts@.take(k as int), pest_rule@),
        decreases k,
    {
        proof {
            assert(alts@.take(k as int).drop_last() =~= alts@.take(k - 1));
        }
        if str_eq(alts[k - 1].pest_rule.as_str(), pest_rule) {
            return Some(k - 1);
        }
        k = k - 1;
    }
    None
}

/// `name` after following at most `hops` aliases: `rule atom = primary;`
/// means an `atom` is really a `primary`.
pub open spec fn follow(rules: Seq<LoweredRule>, name: Seq<char>, hops: nat) -> Seq<char>
    decreases hops,
{
    if hops == 0 {
        name
    } else {
        let k = rule_index(rules, name);
        if k >= 0 {
            match rules[k].shape {
                RuleShape::Alias { child: Some(c) } => follow(rules, c@, (hops - 1) as nat),
                _ => name,
            }
        } else {
            name
        }
    }
}

/// The rule that carries the node for `name`, through up to sixteen aliases.
pub open spec fn resolved_rule_spec(rules: Seq<LoweredRule>, name: Seq<char>) -> Seq<char> {
    follow(rules, name, 16)
}

fn resolved_rule(rules: &Vec<LoweredRule>, name: &str) -> (s: String)
    ensures
        s@ == resolved_rule_spec(rules@, name@),
{
    let mut cur = owned(name);
    let mut hops: usize = 0;
    while hops < 16
        invariant
            hops <= 16,
            follow(rules@, name@, 16) == follow(rules@, cur@, (16 - hops) as nat),
        decreases 16 - hops,
    {
        match find_rule(rules, cur.as_str()) {
            Some(k) => {
                proof {
                    lemma_rule_index_range(rules@, cur@);
                }
                match &rules[k].shape {
                    RuleShape::Alias { child: Some(c) } => {
                        cur = owned(c.as_str());
                        hops = hops + 1;
                    },
                    _ => {
                        return cur;
                    },
                }
            },
            None => {
                return cur;
            },
        }
    }
    cur
}

/// The type name of the rule that carries the node for `name`.
pub open spec fn resolved_type_spec(rules: Seq<LoweredRule>, name: Seq<char>) -> Seq<char> {
    pascal_name_spec(resolved_rule_spec(rules, name))
}

/// The type a reference to `rule` has: `Expr` for the operator table's
/// expression, else whatever the rule resolves to.
pub open spec fn rule_type_spec(l: Lowered, rule: Seq<char>) -> Seq<char> {
    if rule == "expr"@ && l.has_expr {
        "Expr"@
    } else {
        resolved_type_spec(l.rules@, rule)
    }
}

fn rule_type(l: &Lowered, rule: &str) -> (s: String)
    ensures
        s@ == rule_type_spec(*l, rule@),
{
    if str_eq(rule, "expr") && l.has_expr {
        owned("Expr")
    } else {
        pascal_name(resolved_rule(&l.rules, rule).as_str())
    }
}

/// The owned type a binding becomes.
pub open spec fn field_type_spec(l: Lowered, b: Binding) -> Seq<char> {
    let inner = if b.token is Some {
        if b.token->0.case_insensitive { "Name"@ } else { "String"@ }
    } else if b.rule_ref is Some {
        "Shared<"@ + rule_type_spec(l, b.rule_ref->0@) + ">"@
    } else {
        "String"@
    };
    match b.cardinality {
        Cardinality::One => inner,
        Cardinality::Optional => "Option<"@ + inner + ">"@,
        Cardinality::Many => "Vec<"@ + inner + ">"@,
    }
}

fn field_type(l: &Lowered, b: &Binding) -> (s: String)
    ensures
        s@ == field_type_spec(*l, *b),
{
    let inner = match (&b.token, &b.rule_ref) {
        (Some(t), _) => if t.case_insensitive { owned("Name") } else { owned("String") },
        (None, Some(rule)) => {
            let mut s = owned("Shared<");
            s.append(rule_type(l, rule.as_str()).as_str());
            s.append(">");
            s
        },
        (None, None) => owned("String"),
    };
    match b.cardinality {
        Cardinality::One => inner,
        Cardinality::Optional => {
            let mut s = owned("Option<");
            s.append(inner.as_str());
            s.append(">");
            s
        },
        Cardinality::Many => {
            let mut s = owned("Vec<");
            s.append(inner.as_str());
            s.append(">");
            s
        },
    }
}

// ---------------------------------------------------------------------------
// Types
// ---------------------------------------------------------------------------

pub open spec fn struct_fields(l: Lowered, fs: Seq<Binding>) -> Seq<char>
    decreases fs.len(),
{
    if fs.len() == 0 {
        Seq::empty()
    } else {
        struct_fields(l, fs.drop_last()) + "    pub "@ + ident_spec(fs.last().name@) + ": "@ + field_type_spec(l, fs.last())
            + ",\n"@
    }
}

/// The struct of one labelled alternative.
pub open spec fn struct_spec(l: Lowered, name: Seq<char>, alt: LoweredAlternative) -> Seq<char> {
    "/// From `rule "@ + alt.rule@ + " = "@ + alt.source@ + "`.\n#[derive(Clone, Debug)]\npub struct "@ + name + " {\n"@
        + struct_fields(l, first_bindings(alt.bindings@)) + "    pub span: Span,\n}\n\n"@
}

/// The bindings of `alt`, one per name, as references.
fn first_of(alt: &LoweredAlternative) -> (fs: Vec<&Binding>)
    ensures
        fs@.map_values(|b: &Binding| *b) == first_bindings(alt.bindings@),
{
    let bs = &alt.bindings;
    let mut fs: Vec<&Binding> = Vec::new();
    let mut i: usize = 0;
    while i < bs.len()
        invariant
            i <= bs@.len(),
            fs@.map_values(|b: &Binding| *b) == first_bindings(bs@.take(i as int)),
        decreases bs@.len() - i,
    {
        let b = &bs[i];
        let mut dup = false;
        let mut j: usize = 0;
        while j < i
            invariant
                j <= i < bs@.len(),
                *b == bs@[i as int],
                dup == exists|q: int| 0 <= q < j && (#[trigger] bs@[q]).name@ == bs@[i as int].name@,
            decreases i - j,
        {
            if str_eq(bs[j].name.as_str(), b.name.as_str()) {
                dup = true;
            }
            j = j + 1;
        }
        let ghost prev = fs@.map_values(|b: &Binding| *b);
        proof {
            let t = bs@.take(i + 1);
            assert(t.drop_last() =~= bs@.take(i as int));
            assert(t.last() == bs@[i as int]);
            if dup {
                let q = choose|q: int| 0 <= q < i && (#[trigger] bs@[q]).name@ == bs@[i as int].name@;
                assert(t[q].name@ == t.last().name@);
            } else {
                assert forall|q: int| 0 <= q < t.len() - 1 implies #[trigger] t[q].name@ != t.last().name@ by {
                    assert(t[q] == bs@[q]);
                }
            }
        }
        if !dup {
            fs.push(b);
            proof {
                assert(fs@.map_values(|b: &Binding| *b) =~= prev.push(bs@[i as int]));
            }
        }
        i = i + 1;
    }
    proof {
        assert(bs@.take(bs@.len() as int) =~= bs@);
    }
    fs
}

fn struct_text(l: &Lowered, name: &str, alt: &LoweredAlternative) -> (t: String)
    ensures
        t@ == struct_spec(*l, name@, *alt),
{
    let fs = first_of(alt);
    let ghost all = fs@.map_values(|b: &Binding| *b);
    let mut body = String::new();
    let mut k: usize = 0;
    while k < fs.len()
        invariant
            k <= fs@.len(),
            all == fs@.map_values(|b: &Binding| *b),
            body@ == struct_fields(*l, all.take(k as int)),
        decreases fs@.len() - k,
    {
        proof {
            assert(all.take(k + 1).drop_last() =~= all.take(k as int));
            assert(all.take(k + 1).last() == *fs@[k as int]);
        }
        body.append("    pub ");
        body.append(ident(fs[k].name.as_str()).as_str());
        body.append(": ");
        body.append(field_type(l, fs[k]).as_str());
        body.append(",\n");
        k = k + 1;
    }
    proof {
        assert(all.take(fs@.len() as int) =~= all);
    }
    let mut t = owned("/// From `rule ");
    t.append(alt.rule.as_str());
    t.append(" = ");
    t.append(alt.source.as_str());
    t.append("`.\n#[derive(Clone, Debug)]\npub struct ");
    t.append(name);
    t.append(" {\n");
    t.append(body.as_str());
    t.append("    pub span: Span,\n}\n\n");
    t
}

pub const NO_CHILD_MID: &'static str = "` has no `-> label` and no single child to \\\n     stand in for, so there is no type it could be. Give it a \\\n     `-> label` so it gets a node of its own.\"\n);\n\n";

pub open spec fn variant_line(rules: Seq<LoweredRule>, v: LoweredVariant) -> Seq<char> {
    match v {
        LoweredVariant::Labelled { label, pest_rule } => "    "@ + pascal_name_spec(label@) + "(Shared<"@
            + pascal_name_spec(pest_rule@) + ">),\n"@,
        LoweredVariant::Transparent { child: Some(c) } => "    /// A transparent alternative yielding `"@ + c@
            + "`.\n    "@ + pascal_name_spec(c@) + "(Shared<"@ + resolved_type_spec(rules, c@) + ">),\n"@,
        LoweredVariant::Transparent { child: None } => Seq::empty(),
    }
}

pub open spec fn variant_lines(rules: Seq<LoweredRule>, vs: Seq<LoweredVariant>) -> Seq<char>
    decreases vs.len(),
{
    if vs.len() == 0 {
        Seq::empty()
    } else {
        variant_lines(rules, vs.drop_last()) + variant_line(rules, vs.last())
    }
}

/// The structs the labelled variants of a choice point at.
pub open spec fn variant_structs(l: Lowered, vs: Seq<LoweredVariant>) -> Seq<char>
    decreases vs.len(),
{
    if vs.len() == 0 {
        Seq::empty()
    } else {
        variant_structs(l, vs.drop_last()) + match vs.last() {
            LoweredVariant::Labelled { pest_rule, .. } => {
                let k = alt_index(l.alternatives@, pest_rule@);
                if k >= 0 {
                    struct_spec(l, pascal_name_spec(pest_rule@), l.alternatives@[k])
                } else {
                    Seq::empty()
                }
            },
            _ => Seq::empty(),
        }
    }
}

/// The type of one rule: an alias, a struct, or an enum over its variants.
pub open spec fn rule_spec(l: Lowered, rule: LoweredRule) -> Seq<char> {
    let name = pascal_name_spec(rule.name@);
    match rule.shape {
        RuleShape::Alias { child: None } => "compile_error!(\n    \"`rule "@ + rule.name@ + NO_CHILD_MID@,
        RuleShape::Alias { child: Some(c) } => "/// `rule "@ + rule.name@ + "` delegates to `"@ + c@
            + "`, so it is that type.\npub type "@ + name + " = "@ + resolved_type_spec(l.rules@, c@) + ";\n\n"@,
        RuleShape::Single { pest_rule } => {
            let k = alt_index(l.alternatives@, pest_rule@);
            if k >= 0 {
                struct_spec(l, name, l.alternatives@[k])
            } else {
                Seq::empty()
            }
        },
        RuleShape::Choice(vs) => "/// `rule "@ + rule.name@ + "`.\n#[derive(Clone, Debug)]\npub enum "@ + name + " {\n"@
            + variant_lines(l.rules@, vs@) + (if rule.recovers {
            "    /// A span the parser recovered from. Reported once, then poisoned.\n    Error(Span),\n"@
        } else {
            ""@
        }) + "}\n\n"@ + variant_structs(l, vs@),
    }
}

fn variant_line_text(rules: &Vec<LoweredRule>, v: &LoweredVariant) -> (t: String)
    ensures
        t@ == variant_line(rules@, *v),
{
    match v {
        LoweredVariant::Labelled { label, pest_rule } => {
            let mut t = owned("    ");
            t.append(pascal_name(label.as_str()).as_str());
            t.append("(Shared<");
            t.append(pascal_name(pest_rule.as_str()).as_str());
            t.append(">),\n");
            t
        },
        LoweredVariant::Transparent { child: Some(c) } => {
            let mut t = owned("    /// A transparent alternative yielding `");
            t.append(c.as_str());
            t.append("`.\n    ");
            t.append(pascal_name(c.as_str()).as_str());
            t.append("(Shared<");
            t.append(pascal_name(resolved_rule(rules, c.as_str()).as_str()).as_str());
            t.append(">),\n");
            t
        },
        LoweredVariant::Transparent { child: None } => String::new(),
    }
}

fn labelled_struct(l: &Lowered, v: &LoweredVariant) -> (t: String)
    ensures
        t@ == (match *v {
            LoweredVariant::Labelled { pest_rule, .. } => {
                let k = alt_index(l.alternatives@, pest_rule@);
                if k >= 0 {
                    struct_spec(*l, pascal_name_spec(pest_rule@), l.alternatives@[k])
                } else {
                    Seq::empty()
                }
            },
            _ => Seq::<char>::empty(),
        }),
{
    match v {
        LoweredVariant::Labelled { pest_rule, .. } => match find_alt(&l.alternatives, pest_rule.as_str()) {
            Some(k) => struct_text(l, pascal_name(pest_rule.as_str()).as_str(), &l.alternatives[k]),
            None => String::new(),
        },
        _ => String::new(),
    }
}

fn rule_text(l: &Lowered, rule: &LoweredRule) -> (t: String)
    ensures
        t@ == rule_spec(*l, *rule),
{
    let name = pascal_name(rule.name.as_str());
    match &rule.shape {
        RuleShape::Alias { child: None } => {
            let mut t = owned("compile_error!(\n    \"`rule ");
            t.append(rule.name.as_str());
            t.append(NO_CHILD_MID);
            t
        },
        RuleShape::Alias { child: Some(c) } => {
            let mut t = owned("/// `rule ");
            t.append(rule.name.as_str());
            t.append("` delegates to `");
            t.append(c.as_str());
            t.append("`, so it is that type.\npub type ");
            t.append(name.as_str());
            t.append(" = ");
            t.append(pascal_name(resolved_rule(&l.rules, c.as_str()).as_str()).as_str());
            t.append(";\n\n");
            t
        },
        RuleShape::Single { pest_rule } => match find_alt(&l.alternatives, pest_rule.as_str()) {
            Some(k) => struct_text(l, name.as_str(), &l.alternatives[k]),
            None => String::new(),
        },
        RuleShape::Choice(vs) => {
            let mut lines = String::new();
            let mut structs = String::new();
            let mut k: usize = 0;
            while k < vs.len()
                invariant
                    k <= vs@.len(),
                    lines@ == variant_lines(l.rules@, vs@.take(k as int)),
                    structs@ == variant_structs(*l, vs@.take(k as int)),
                decreases vs@.len() - k,
            {
                proof {
                    assert(vs@.take(k + 1).drop_last() =~= vs@.take(k as int));
                }
                lines.append(variant_line_text(&l.rules, &vs[k]).as_str());
                structs.append(labelled_struct(l, &vs[k]).as_str());
                k = k + 1;
            }
            proof {
                assert(vs@.take(vs@.len() as int) =~= vs@);
            }
            let mut t = owned("/// `rule ");
            t.append(rule.name.as_str());
            t.append("`.\n#[derive(Clone, Debug)]\npub enum ");
            t.append(name.as_str());
            t.append(" {\n");
            t.append(lines.as_str());
            t.append(if rule.recovers {
                "    /// A span the parser recovered from. Reported once, then poisoned.\n    Error(Span),\n"
            } else {
                ""
            });
            t.append("}\n\n");
            t.append(structs.as_str());
            t
        },
    }
}


// ---------------------------------------------------------------------------
// The expression type
// ---------------------------------------------------------------------------

/// The index of the first rule named `name`, or -1.
pub open spec fn first_rule_index(rules: Seq<LoweredRule>, name: Seq<char>) -> int
    decreases rules.len(),
{
    if rules.len() == 0 {
        -1
    } else if first_rule_index(rules.drop_last(), name) >= 0 {
        first_rule_index(rules.drop_last(), name)
    } else if rules.last().name@ == name {
        rules.len() - 1
    } else {
        -1
    }
}

fn find_first_rule(rules: &Vec<LoweredRule>, name: &str) -> (r: Option<usize>)
    ensures
        match r {
            Some(k) => k as int == first_rule_index(rules@, name@) && k < rules@.len(),
            None => first_rule_index(rules@, name@) == -1,
        },
{
    let mut k: usize = 0;
    while k < rules.len()
        invariant
            k <= rules@.len(),
            first_rule_index(rules@.take(k as int), name@) == -1,
        decreases rules@.len() - k,
    {
        proof {
            assert(rules@.take(k + 1).drop_last() =~= rules@.take(k as int));
        }
        if str_eq(rules[k].name.as_str(), name) {
            proof {
                lemma_first_rule_prefix(rules@, k + 1, name@);
            }
            return Some(k);
        }
        k = k + 1;
    }
    proof {
        assert(rules@.take(rules@.len() as int) =~= rules@);
    }
    None
}

proof fn lemma_first_rule_prefix(rules: Seq<LoweredRule>, n: int, name: Seq<char>)
    requires
        0 <= n <= rules.len(),
        first_rule_index(rules.take(n), name) >= 0,
    ensures
        first_rule_index(rules, name) == first_rule_index(rules.take(n), name),
    decreases rules.len() - n,
{
    if n < rules.len() {
        assert(rules.take(n + 1).drop_last() =~= rules.take(n));
        lemma_first_rule_prefix(rules, n + 1, name);
    } else {
        assert(rules.take(n) =~= rules);
    }
}

pub const EXPR_TYPE_HEAD: &'static str = "/// An expression, already folded by precedence.\n///\n/// The grammar parses operators as a flat stream; the shape below is\n/// what the driver folded it into, once, when the AST was built.\n#[derive(Clone, Debug)]\npub enum Expr {\n    Atom(Shared<";

pub const EXPR_TYPE_TAIL: &'static str = ">),\n    Prefix { op: OpKind, operand: Shared<Expr>, span: Span },\n    Postfix { operand: Shared<Expr>, op: OpKind, span: Span },\n    Infix { lhs: Shared<Expr>, op: OpKind, rhs: Shared<Expr>, span: Span },\n}\n\n/// Which operator an [`Expr`] node applies, as a generated rule id.\npub type OpKind = crate::Rule;\n\n";

pub open spec fn expr_type_spec(l: Lowered) -> Seq<char> {
    EXPR_TYPE_HEAD@ + (if first_rule_index(l.rules@, "atom"@) >= 0 {
        resolved_type_spec(l.rules@, "atom"@)
    } else {
        "Atom"@
    }) + EXPR_TYPE_TAIL@
}

fn expr_type_text(l: &Lowered) -> (t: String)
    ensures
        t@ == expr_type_spec(*l),
{
    let atom = match find_first_rule(&l.rules, "atom") {
        Some(_) => pascal_name(resolved_rule(&l.rules, "atom").as_str()),
        None => owned("Atom"),
    };
    let mut t = owned(EXPR_TYPE_HEAD);
    t.append(atom.as_str());
    t.append(EXPR_TYPE_TAIL);
    t
}

// ---------------------------------------------------------------------------
// Builders
// ---------------------------------------------------------------------------

pub const BUILD_HEAD: &'static str = "// ---------------------------------------------------------------------------\n// Building the tree\n// ---------------------------------------------------------------------------\n\nuse nh_runtime::pest::Pair;\nuse nh_runtime::{Error, FileId, Result, View};\n\nuse super::views::*;\nuse crate::Rule;\n\nfn span_of(pair: &Pair<'_, Rule>, file: FileId) -> Span {\n    let s = pair.as_span();\n    Span::new(file, s.start() as u32, s.end() as u32)\n}\n\n/// Descends through a rule that carries no node of its own.\n///\n/// A wrapper with more than one child means the author meant to handle\n/// it, so this says that rather than silently picking the first.\nfn only_child(pair: Pair<'_, Rule>) -> Result<Pair<'_, Rule>> {\n    let rule = pair.as_rule();\n    let mut inner = pair.into_inner();\n    match (inner.next(), inner.next()) {\n        (Some(only), None) => Ok(only),\n        (Some(_), Some(_)) => Err(Error::runtime(format!(\n            \"`{rule:?}` produced several children and has no handler; \\\n             add a `-> label` to the alternative you meant\"\n        ))),\n        (None, _) => Err(Error::runtime(format!(\n            \"`{rule:?}` produced no children\"\n        ))),\n    }\n}\n\n";

pub const EXPR_BUILDER_HEAD: &'static str = "/// Folds the flat operand/operator stream into a tree, once.\npub fn build_expr(pair: Pair<'_, Rule>, file: FileId) -> Result<Shared<Expr>> {\n    let span = span_of(&pair, file);\n    let tree = nh_runtime::ops::build(\n        pair.into_inner().collect(),\n        super::dispatch::op_info,\n        super::dispatch::prefix_info,\n    )\n    .map_err(|e| Error::runtime(e.to_string()).at(span))?;\n    from_op_tree(&tree, file)\n}\n\nfn from_op_tree(\n    tree: &nh_runtime::OpTree<'_, Rule>,\n    file: FileId,\n) -> Result<Shared<Expr>> {\n    use nh_runtime::OpTree;\n    Ok(Shared::new(match tree {\n        OpTree::Atom(p) => Expr::Atom(build_";

pub const EXPR_BUILDER_TAIL: &'static str = "(p.clone(), file)?),\n        OpTree::Prefix { op, operand } => Expr::Prefix {\n            op: op.as_rule(),\n            operand: from_op_tree(operand, file)?,\n            span: span_of(op, file),\n        },\n        OpTree::Postfix { operand, op } => Expr::Postfix {\n            operand: from_op_tree(operand, file)?,\n            op: op.as_rule(),\n            span: span_of(op, file),\n        },\n        OpTree::Infix { lhs, op, rhs } => Expr::Infix {\n            lhs: from_op_tree(lhs, file)?,\n            op: op.as_rule(),\n            rhs: from_op_tree(rhs, file)?,\n            span: span_of(op, file),\n        },\n    }))\n}\n\n";

/// The rule whose builder builds an atom: `atom` itself, or the rule it
/// delegates to.
pub open spec fn atom_builder_spec(rules: Seq<LoweredRule>) -> Seq<char> {
    let k = first_rule_index(rules, "atom"@);
    if k < 0 {
        "atom"@
    } else {
        match rules[k].shape {
            RuleShape::Alias { child: Some(c) } => c@,
            RuleShape::Alias { child: None } => "atom"@,
            _ => rules[k].name@,
        }
    }
}

pub open spec fn builder_name_spec(rule: Seq<char>) -> Seq<char> {
    "build_"@ + ident_spec(rule)
}

fn builder_name(rule: &str) -> (s: String)
    ensures
        s@ == builder_name_spec(rule@),
{
    let mut s = owned("build_");
    s.append(ident(rule).as_str());
    s
}

/// How one node of a binding becomes its value, `n` standing for the node.
pub open spec fn one_value(l: Lowered, b: Binding, n: Seq<char>) -> Seq<char> {
    if b.token is Some && b.token->0.case_insensitive {
        "Name::new("@ + n + ".text(), "@ + n + ".span())"@
    } else if b.token is Some || b.rule_ref is None {
        n + ".text().to_string()"@
    } else {
        let rule = b.rule_ref->0@;
        let target = if rule == "expr"@ && l.has_expr { "expr"@ } else { resolved_rule_spec(l.rules@, rule) };
        builder_name_spec(target) + "("@ + n + ".into_pair(), file)?"@
    }
}

/// How one binding's value is produced from its view accessor.
pub open spec fn field_build_spec(l: Lowered, b: Binding) -> Seq<char> {
    let accessor = "view."@ + ident_spec(b.name@) + "()"@;
    let fallible = b.token is None && b.rule_ref is Some;
    match b.cardinality {
        Cardinality::One => one_value(l, b, accessor),
        Cardinality::Optional => if !fallible {
            accessor + ".map(|n| "@ + one_value(l, b, "n"@) + ")"@
        } else {
            "match "@ + accessor + " { Some(n) => Some("@ + one_value(l, b, "n"@) + "), None => None }"@
        },
        Cardinality::Many => "{ let mut v = Vec::new(); for n in "@ + accessor + " { v.push("@ + one_value(l, b, "n"@)
            + "); } v }"@,
    }
}

fn one_value_text(l: &Lowered, b: &Binding, n: &str) -> (t: String)
    ensures
        t@ == one_value(*l, *b, n@),
{
    match (&b.token, &b.rule_ref) {
        (Some(tok), _) => {
            if tok.case_insensitive {
                let mut t = owned("Name::new(");
                t.append(n);
                t.append(".text(), ");
                t.append(n);
                t.append(".span())");
                t
            } else {
                let mut t = owned(n);
                t.append(".text().to_string()");
                t
            }
        },
        (None, None) => {
            let mut t = owned(n);
            t.append(".text().to_string()");
            t
        },
        (None, Some(rule)) => {
            let target = if str_eq(rule.as_str(), "expr") && l.has_expr {
                owned("expr")
            } else {
                resolved_rule(&l.rules, rule.as_str())
            };
            let mut t = builder_name(target.as_str());
            t.append("(");
            t.append(n);
            t.append(".into_pair(), file)?");
            t
        },
    }
}

fn field_build(l: &Lowered, b: &Binding) -> (t: String)
    ensures
        t@ == field_build_spec(*l, *b),
{
    let mut accessor = owned("view.");
    accessor.append(ident(b.name.as_str()).as_str());
    accessor.append("()");
    let fallible = b.token.is_none() && b.rule_ref.is_some();
    match b.cardinality {
        Cardinality::One => one_value_text(l, b, accessor.as_str()),
        Cardinality::Optional => {
            if !fallible {
                let mut t = owned(accessor.as_str());
                t.append(".map(|n| ");
                t.append(one_value_text(l, b, "n").as_str());
                t.append(")");
                t
            } else {
                let mut t = owned("match ");
                t.append(accessor.as_str());
                t.append(" { Some(n) => Some(");
                t.append(one_value_text(l, b, "n").as_str());
                t.append("), None => None }");
                t
            }
        },
        Cardinality::Many => {
            let mut t = owned("{ let mut v = Vec::new(); for n in ");
            t.append(accessor.as_str());
            t.append(" { v.push(");
            t.append(one_value_text(l, b, "n").as_str());
            t.append("); } v }");
            t
        },
    }
}

pub open spec fn field_builds(l: Lowered, fs: Seq<Binding>) -> Seq<char>
    decreases fs.len(),
{
    if fs.len() == 0 {
        Seq::empty()
    } else {
        field_builds(l, fs.drop_last()) + "        "@ + ident_spec(fs.last().name@) + ": "@ + field_build_spec(l, fs.last())
            + ",\n"@
    }
}

pub open spec fn struct_builder_spec(l: Lowered, name: Seq<char>, alt: LoweredAlternative) -> Seq<char> {
    "/// Builds `"@ + name + "` from `"@ + alt.source@ + "`.\npub fn "@ + builder_name_spec(alt.pest_rule@)
        + "(pair: Pair<'_, Rule>, file: FileId) -> Result<Shared<"@ + name + ">> {\n    let view = "@
        + pascal_name_spec(alt.pest_rule@) + "View::from_pair(pair, file);\n    Ok(Shared::new("@ + name + " {\n"@
        + field_builds(l, first_bindings(alt.bindings@)) + "        span: view.span(),\n    }))\n}\n\n"@
}

fn struct_builder(l: &Lowered, name: &str, alt: &LoweredAlternative) -> (t: String)
    ensures
        t@ == struct_builder_spec(*l, name@, *alt),
{
    let fs = first_of(alt);
    let ghost all = fs@.map_values(|b: &Binding| *b);
    let mut body = String::new();
    let mut k: usize = 0;
    while k < fs.len()
        invariant
            k <= fs@.len(),
            all == fs@.map_values(|b: &Binding| *b),
            body@ == field_builds(*l, all.take(k as int)),
        decreases fs@.len() - k,
    {
        proof {
            assert(all.take(k + 1).drop_last() =~= all.take(k as int));
            assert(all.take(k + 1).last() == *fs@[k as int]);
        }
        body.append("        ");
        body.append(ident(fs[k].name.as_str()).as_str());
        body.append(": ");
        body.append(field_build(l, fs[k]).as_str());
        body.append(",\n");
        k = k + 1;
    }
    proof {
        assert(all.take(fs@.len() as int) =~= all);
    }
    let mut t = owned("/// Builds `");
    t.append(name);
    t.append("` from `");
    t.append(alt.source.as_str());
    t.append("`.\npub fn ");
    t.append(builder_name(alt.pest_rule.as_str()).as_str());
    t.append("(pair: Pair<'_, Rule>, file: FileId) -> Result<Shared<");
    t.append(name);
    t.append(">> {\n    let view = ");
    t.append(pascal_name(alt.pest_rule.as_str()).as_str());
    t.append("View::from_pair(pair, file);\n    Ok(Shared::new(");
    t.append(name);
    t.append(" {\n");
    t.append(body.as_str());
    t.append("        span: view.span(),\n    }))\n}\n\n");
    t
}

pub open spec fn choice_arm(rules: Seq<LoweredRule>, name: Seq<char>, v: LoweredVariant) -> Seq<char> {
    match v {
        LoweredVariant::Labelled { label, pest_rule } => "            Rule::"@ + pest_rule@
            + " => {\n                return Ok(Shared::new("@ + name + "::"@ + pascal_name_spec(label@) + "("@
            + builder_name_spec(pest_rule@) + "(pair, file)?)))\n            }\n"@,
        LoweredVariant::Transparent { child: Some(c) } => "            Rule::"@ + c@
            + " => {\n                return Ok(Shared::new("@ + name + "::"@ + pascal_name_spec(c@) + "("@
            + builder_name_spec(resolved_rule_spec(rules, c@)) + "(pair, file)?)))\n            }\n"@,
        LoweredVariant::Transparent { child: None } => Seq::empty(),
    }
}

pub open spec fn choice_arms(rules: Seq<LoweredRule>, name: Seq<char>, vs: Seq<LoweredVariant>) -> Seq<char>
    decreases vs.len(),
{
    if vs.len() == 0 {
        Seq::empty()
    } else {
        choice_arms(rules, name, vs.drop_last()) + choice_arm(rules, name, vs.last())
    }
}

pub const CHOICE_TAIL: &'static str = "            // A wrapper rule: the node is one level down.\n            _ => pair = only_child(pair).map_err(|e| e.at(span))?,\n        }\n    }\n}\n\n";

pub open spec fn choice_builder_spec(l: Lowered, rule: LoweredRule, vs: Seq<LoweredVariant>) -> Seq<char> {
    let name = pascal_name_spec(rule.name@);
    "/// Builds a `"@ + rule.name@ + "` node.\npub fn "@ + builder_name_spec(rule.name@)
        + "(pair: Pair<'_, Rule>, file: FileId) -> Result<Shared<"@ + name
        + ">> {\n    let mut pair = pair;\n    loop {\n        let span = span_of(&pair, file);\n        match pair.as_rule() {\n"@
        + choice_arms(l.rules@, name, vs) + (if rule.recovers {
        "            Rule::nh_error_"@ + rule.pest_rule@ + " => return Ok(Shared::new("@ + name + "::Error(span))),\n"@
    } else {
        ""@
    }) + CHOICE_TAIL@
}

fn choice_arm_text(rules: &Vec<LoweredRule>, name: &str, v: &LoweredVariant) -> (t: String)
    ensures
        t@ == choice_arm(rules@, name@, *v),
{
    match v {
        LoweredVariant::Labelled { label, pest_rule } => {
            let mut t = owned("            Rule::");
            t.append(pest_rule.as_str());
            t.append(" => {\n                return Ok(Shared::new(");
            t.append(name);
            t.append("::");
            t.append(pascal_name(label.as_str()).as_str());
            t.append("(");
            t.append(builder_name(pest_rule.as_str()).as_str());
            t.append("(pair, file)?)))\n            }\n");
            t
        },
        LoweredVariant::Transparent { child: Some(c) } => {
            let mut t = owned("            Rule::");
            t.append(c.as_str());
            t.append(" => {\n                return Ok(Shared::new(");
            t.append(name);
            t.append("::");
            t.append(pascal_name(c.as_str()).as_str());
            t.append("(");
            t.append(builder_name(resolved_rule(rules, c.as_str()).as_str()).as_str());
            t.append("(pair, file)?)))\n            }\n");
            t
        },
        LoweredVariant::Transparent { child: None } => String::new(),
    }
}

fn choice_builder(l: &Lowered, rule: &LoweredRule, vs: &Vec<LoweredVariant>) -> (t: String)
    ensures
        t@ == choice_builder_spec(*l, *rule, vs@),
{
    let name = pascal_name(rule.name.as_str());
    let mut arms = String::new();
    let mut k: usize = 0;
    while k < vs.len()
        invariant
            k <= vs@.len(),
            arms@ == choice_arms(l.rules@, name@, vs@.take(k as int)),
        decreases vs@.len() - k,
    {
        proof {
            assert(vs@.take(k + 1).drop_last() =~= vs@.take(k as int));
        }
        arms.append(choice_arm_text(&l.rules, name.as_str(), &vs[k]).as_str());
        k = k + 1;
    }
    proof {
        assert(vs@.take(vs@.len() as int) =~= vs@);
    }
    let mut t = owned("/// Builds a `");
    t.append(rule.name.as_str());
    t.append("` node.\npub fn ");
    t.append(builder_name(rule.name.as_str()).as_str());
    t.append("(pair: Pair<'_, Rule>, file: FileId) -> Result<Shared<");
    t.append(name.as_str());
    t.append(">> {\n    let mut pair = pair;\n    loop {\n        let span = span_of(&pair, file);\n        match pair.as_rule() {\n");
    t.append(arms.as_str());
    if rule.recovers {
        t.append("            Rule::nh_error_");
        t.append(rule.pest_rule.as_str());
        t.append(" => return Ok(Shared::new(");
        t.append(name.as_str());
        t.append("::Error(span))),\n");
    } else {
        t.append("");
    }
    t.append(CHOICE_TAIL);
    t
}

pub open spec fn variant_builders(l: Lowered, vs: Seq<LoweredVariant>) -> Seq<char>
    decreases vs.len(),
{
    if vs.len() == 0 {
        Seq::empty()
    } else {
        variant_builders(l, vs.drop_last()) + match vs.last() {
            LoweredVariant::Labelled { pest_rule, .. } => {
                let k = alt_index(l.alternatives@, pest_rule@);
                if k >= 0 {
                    struct_builder_spec(l, pascal_name_spec(pest_rule@), l.alternatives@[k])
                } else {
                    Seq::empty()
                }
            },
            _ => Seq::empty(),
        }
    }
}

/// The builder of one rule: nothing for an alias, which callers resolve
/// through.
pub open spec fn rule_builder_spec(l: Lowered, rule: LoweredRule) -> Seq<char> {
    match rule.shape {
        RuleShape::Alias { .. } => Seq::empty(),
        RuleShape::Single { pest_rule } => {
            let k = alt_index(l.alternatives@, pest_rule@);
            if k >= 0 {
                struct_builder_spec(l, pascal_name_spec(rule.name@), l.alternatives@[k])
            } else {
                Seq::empty()
            }
        },
        RuleShape::Choice(vs) => choice_builder_spec(l, rule, vs@) + variant_builders(l, vs@),
    }
}

fn rule_builder(l: &Lowered, rule: &LoweredRule) -> (t: String)
    ensures
        t@ == rule_builder_spec(*l, *rule),
{
    match &rule.shape {
        RuleShape::Alias { .. } => String::new(),
        RuleShape::Single { pest_rule } => match find_alt(&l.alternatives, pest_rule.as_str()) {
            Some(k) => struct_builder(l, pascal_name(rule.name.as_str()).as_str(), &l.alternatives[k]),
            None => String::new(),
        },
        RuleShape::Choice(vs) => {
            let mut t = choice_builder(l, rule, vs);
            let mut k: usize = 0;
            let ghost start = t@;
            while k < vs.len()
                invariant
                    k <= vs@.len(),
                    t@ == start + variant_builders(*l, vs@.take(k as int)),
                decreases vs@.len() - k,
            {
                proof {
                    assert(vs@.take(k + 1).drop_last() =~= vs@.take(k as int));
                }
                match &vs[k] {
                    LoweredVariant::Labelled { pest_rule, .. } => match find_alt(&l.alternatives, pest_rule.as_str()) {
                        Some(a) => t.append(struct_builder(l, pascal_name(pest_rule.as_str()).as_str(), &l.alternatives[a]).as_str()),
                        None => {},
                    },
                    _ => {},
                }
                k = k + 1;
            }
            proof {
                assert(vs@.take(vs@.len() as int) =~= vs@);
            }
            t
        },
    }
}

pub open spec fn rules_text(l: Lowered, rs: Seq<LoweredRule>) -> Seq<char>
    decreases rs.len(),
{
    if rs.len() == 0 {
        Seq::empty()
    } else {
        rules_text(l, rs.drop_last()) + rule_spec(l, rs.last())
    }
}

pub open spec fn builders_text(l: Lowered, rs: Seq<LoweredRule>) -> Seq<char>
    decreases rs.len(),
{
    if rs.len() == 0 {
        Seq::empty()
    } else {
        builders_text(l, rs.drop_last()) + rule_builder_spec(l, rs.last())
    }
}

/// Whether a binding is a case-folding token.
pub open spec fn folding_binding(b: Binding) -> bool {
    b.token is Some && b.token->0.case_insensitive
}

/// Whether some binding of some alternative is a case-folding token.
pub open spec fn folds(l: Lowered) -> bool {
    exists|a: int, b: int| 0 <= a < l.alternatives@.len() && 0 <= b < l.alternatives@[a].bindings@.len()
        && folding_binding(#[trigger] l.alternatives@[a].bindings@[b])
}

pub open spec fn ast_file(l: Lowered) -> Seq<char> {
    HEADER@ + "\n#![allow(dead_code)]\n\nuse nh_runtime::Shared;\n\nuse nh_runtime::"@ + (if folds(l) {
        "{Name, Span}"@
    } else {
        "Span"@
    }) + ";\n\n"@ + (if l.has_expr { expr_type_spec(l) } else { ""@ }) + rules_text(l, l.rules@) + BUILD_HEAD@
        + (if l.has_expr {
        EXPR_BUILDER_HEAD@ + atom_builder_spec(l.rules@) + EXPR_BUILDER_TAIL@
    } else {
        ""@
    }) + builders_text(l, l.rules@)
}

fn any_folding(l: &Lowered) -> (b: bool)
    ensures
        b == folds(*l),
{
    let alts = &l.alternatives;
    let mut a: usize = 0;
    while a < alts.len()
        invariant
            a <= alts@.len(),
            alts == &l.alternatives,
            forall|p: int, q: int| 0 <= p < a && 0 <= q < alts@[p].bindings@.len() ==> !folding_binding(#[trigger] alts@[p].bindings@[q]),
        decreases alts@.len() - a,
    {
        let bs = &alts[a].bindings;
        let mut b: usize = 0;
        while b < bs.len()
            invariant
                a < alts@.len(),
                alts == &l.alternatives,
                *bs == alts@[a as int].bindings,
                b <= bs@.len(),
                forall|q: int| 0 <= q < b ==> !folding_binding(#[trigger] bs@[q]),
            decreases bs@.len() - b,
        {
            match &bs[b].token {
                Some(t) => {
                    if t.case_insensitive {
                        proof {
                            assert(alts@[a as int].bindings@[b as int] == bs@[b as int]);
                            assert(folding_binding(l.alternatives@[a as int].bindings@[b as int]));
                        }
                        return true;
                    }
                },
                None => {},
            }
            b = b + 1;
        }
        a = a + 1;
    }
    false
}

fn atom_builder(rules: &Vec<LoweredRule>) -> (s: String)
    ensures
        s@ == atom_builder_spec(rules@),
{
    match find_first_rule(rules, "atom") {
        None => owned("atom"),
        Some(k) => match &rules[k].shape {
            RuleShape::Alias { child: Some(c) } => owned(c.as_str()),
            RuleShape::Alias { child: None } => owned("atom"),
            _ => owned(rules[k].name.as_str()),
        },
    }
}

/// `ast.rs`: the owned types of the grammar's rules, and the builders that
/// convert a parse tree into them, once.
pub fn generate(lowered: &Lowered) -> (out: String)
    ensures
        out@ == ast_file(*lowered),
{
    let l = lowered;
    let mut out = owned(HEADER);
    out.append("\n#![allow(dead_code)]\n\nuse nh_runtime::Shared;\n\nuse nh_runtime::");
    out.append(if any_folding(l) { "{Name, Span}" } else { "Span" });
    out.append(";\n\n");
    if l.has_expr {
        out.append(expr_type_text(l).as_str());
    } else {
        out.append("");
    }
    let ghost start = out@;
    let mut k: usize = 0;
    while k < l.rules.len()
        invariant
            k <= l.rules@.len(),
            out@ == start + rules_text(*l, l.rules@.take(k as int)),
        decreases l.rules@.len() - k,
    {
        proof {
            assert(l.rules@.take(k + 1).drop_last() =~= l.rules@.take(k as int));
        }
        out.append(rule_text(l, &l.rules[k]).as_str());
        k = k + 1;
    }
    proof {
        assert(l.rules@.take(l.rules@.len() as int) =~= l.rules@);
    }
    out.append(BUILD_HEAD);
    if l.has_expr {
        out.append(EXPR_BUILDER_HEAD);
        out.append(atom_builder(&l.rules).as_str());
        out.append(EXPR_BUILDER_TAIL);
    } else {
        out.append("");
    }
    let ghost mid = out@;
    let mut k: usize = 0;
    while k < l.rules.len()
        invariant
            k <= l.rules@.len(),
            out@ == mid + builders_text(*l, l.rules@.take(k as int)),
        decreases l.rules@.len() - k,
    {
        proof {
            assert(l.rules@.take(k + 1).drop_last() =~= l.rules@.take(k as int));
        }
        out.append(rule_builder(l, &l.rules[k]).as_str());
        k = k + 1;
    }
    proof {
        assert(l.rules@.take(l.rules@.len() as int) =~= l.rules@);
        assert(out@ =~= ast_file(*l));
    }
    out
}

} // verus!
