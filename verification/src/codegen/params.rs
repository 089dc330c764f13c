//! Turning a grammar alternative's bindings into a handler's parameters.
//!
//! The shapes follow from the grammar:
//!
//! | grammar | parameter |
//! |---|---|
//! | `name:IDENT` | `&str` |
//! | `name:IDENT` on a `case-insensitive` token | `&Name` |
//! | `value:expr` | `Self::Out`, already evaluated |
//! | `lazy body:block` | `&Shared<Block>`, run with `.eval(host, cx)?` |
//! | `x:y?` | `Option<..>` |
//! | `x:y*` | `Vec<..>` or `&[..]` |

use vstd::prelude::*;
use crate::codegen::{ident, ident_spec, pascal_name, pascal_name_spec};
use crate::lower::{Binding, Cardinality, LoweredAlternative};
use crate::text::{owned, str_eq};

verus! {

pub struct Param {
    pub name: String,
    pub ty: String,
    /// How the evaluator produces the value from the AST node.
    pub extract: String,
    pub doc: String,
}

/// The four kinds of parameter. The type alone does not say whether a value
/// was evaluated for the handler or waits for it to run it, which is why
/// each kind has its own doc line.
#[derive(Clone, Copy, PartialEq, Eq, Structural, Debug)]
pub enum Kind {
    /// A token's text, borrowed from the AST.
    Text,
    /// A `Name`, borrowed: both spellings survive.
    Borrowed,
    /// A sub-rule, evaluated before the handler runs.
    Value,
    /// A `lazy` sub-rule, handed over as owned data.
    Deferred,
}

pub open spec fn kind_of(b: Binding) -> Kind {
    if b.rule_ref is Some && b.lazy {
        Kind::Deferred
    } else if b.token is Some {
        if b.token->0.case_insensitive { Kind::Borrowed } else { Kind::Text }
    } else if b.rule_ref is Some {
        Kind::Value
    } else {
        Kind::Text
    }
}

/// The type of one item, by reference.
pub open spec fn borrow_spec(b: Binding) -> Seq<char> {
    match kind_of(b) {
        Kind::Text => "str"@,
        Kind::Borrowed => "Name"@,
        Kind::Value => "Self::Out"@,
        Kind::Deferred => "Shared<"@ + pascal_name_spec(b.rule_ref->0@) + ">"@,
    }
}

/// The type of one item as the AST field holds it.
pub open spec fn elem_spec(b: Binding) -> Seq<char> {
    match kind_of(b) {
        Kind::Text => "String"@,
        _ => borrow_spec(b),
    }
}

pub open spec fn ty_spec(b: Binding) -> Seq<char> {
    match (kind_of(b), b.cardinality) {
        (Kind::Value, Cardinality::One) => "Self::Out"@,
        (Kind::Value, Cardinality::Optional) => "Option<Self::Out>"@,
        (Kind::Value, Cardinality::Many) => "Vec<Self::Out>"@,
        (_, Cardinality::One) => "&"@ + borrow_spec(b),
        (Kind::Text, Cardinality::Optional) => "Option<&str>"@,
        (_, Cardinality::Optional) => "Option<&"@ + borrow_spec(b) + ">"@,
        (_, Cardinality::Many) => "&["@ + elem_spec(b) + "]"@,
    }
}

pub open spec fn base_doc_spec(b: Binding) -> Seq<char> {
    match kind_of(b) {
        Kind::Deferred => "the `"@ + b.rule_ref->0@ + "` rule, **unevaluated** — `.eval(host, cx)?` runs it"@,
        Kind::Borrowed => "the `"@ + b.token->0.name@ + "` token; folds case, so use `.key()` to look it up"@,
        Kind::Value => "the value of the `"@ + b.rule_ref->0@ + "` rule, already evaluated"@,
        Kind::Text => if b.token is Some {
            "the text of the `"@ + b.token->0.name@ + "` token"@
        } else {
            "the text this matched"@
        },
    }
}

pub open spec fn doc_spec(b: Binding) -> Seq<char> {
    match b.cardinality {
        Cardinality::One => base_doc_spec(b),
        Cardinality::Optional => base_doc_spec(b) + " (optional in the grammar)"@,
        Cardinality::Many => base_doc_spec(b) + " (repeated in the grammar"@ + (if kind_of(b)
            == Kind::Value {
            "; items that failed and were already reported are omitted"@
        } else {
            ""@
        }) + ")"@,
    }
}

pub open spec fn field_spec(b: Binding) -> Seq<char> {
    "node."@ + ident_spec(b.name@)
}

pub open spec fn eval_spec(b: Binding) -> Seq<char> {
    "eval_"@ + ident_spec(b.rule_ref->0@)
}

pub open spec fn extract_spec(b: Binding) -> Seq<char> {
    let field = field_spec(b);
    let eval = eval_spec(b);
    match (kind_of(b), b.cardinality) {
        (Kind::Value, Cardinality::One) => eval + "(host, &"@ + field + ", cx)?"@,
        (Kind::Value, Cardinality::Optional) => "match &"@ + field + " { Some(n) => Some("@ + eval
            + "(host, n, cx)?), None => None }"@,
        (Kind::Value, Cardinality::Many) => "{\n                let mut v = Vec::new();\n                for n in &"@
            + field + " {\n                    match "@ + eval
            + "(host, n, cx) {\n                        Ok(x) => v.push(x),\n                        Err(Error::AlreadyReported) => continue,\n                        Err(e) => return Err(e),\n                    }\n                }\n                v\n            }"@,
        (_, Cardinality::One) => "&"@ + field,
        (Kind::Text, Cardinality::Optional) => field + ".as_deref()"@,
        (_, Cardinality::Optional) => field + ".as_ref()"@,
        (_, Cardinality::Many) => "&"@ + field,
    }
}

/// Whether `p` is the parameter for `b`.
pub open spec fn param_of(p: Param, b: Binding) -> bool {
    &&& p.name@ == b.name@
    &&& p.ty@ == ty_spec(b)
    &&& p.doc@ == doc_spec(b)
    &&& p.extract@ == extract_spec(b)
}

/// The bindings of `bs` whose name no earlier binding has, in order.
pub open spec fn first_bindings(bs: Seq<Binding>) -> Seq<Binding>
    decreases bs.len(),
{
    if bs.len() == 0 {
        Seq::empty()
    } else {
        let prev = first_bindings(bs.drop_last());
        if exists|j: int| 0 <= j < bs.len() - 1 && #[trigger] bs[j].name@ == bs.last().name@ {
            prev
        } else {
            prev.push(bs.last())
        }
    }
}

fn kind(b: &Binding) -> (k: Kind)
    ensures
        k == kind_of(*b),
{
    match (&b.token, &b.rule_ref, b.lazy) {
        (_, Some(_), true) => Kind::Deferred,
        (Some(t), _, _) => if t.case_insensitive { Kind::Borrowed } else { Kind::Text },
        (None, Some(_), _) => Kind::Value,
        (None, None, _) => Kind::Text,
    }
}

/// The parameter for one binding.
pub fn param(b: &Binding) -> (p: Param)
    ensures
        param_of(p, *b),
{
    let k = kind(b);
    let mut field = owned("node.");
    field.append(ident(b.name.as_str()).as_str());

    let mut borrow = String::new();
    match k {
        Kind::Text => borrow.append("str"),
        Kind::Borrowed => borrow.append("Name"),
        Kind::Value => borrow.append("Self::Out"),
        Kind::Deferred => {
            match &b.rule_ref {
                Some(r) => {
                    borrow.append("Shared<");
                    borrow.append(pascal_name(r.as_str()).as_str());
                    borrow.append(">");
                },
                None => {},
            }
        },
    }
    let elem = if k == Kind::Text { owned("String") } else { owned(borrow.as_str()) };

    let mut doc = String::new();
    match k {
        Kind::Deferred => {
            match &b.rule_ref {
                Some(r) => {
                    doc.append("the `");
                    doc.append(r.as_str());
                    doc.append("` rule, **unevaluated** — `.eval(host, cx)?` runs it");
                },
                None => {},
            }
        },
        Kind::Borrowed => {
            match &b.token {
                Some(t) => {
                    doc.append("the `");
                    doc.append(t.name.as_str());
                    doc.append("` token; folds case, so use `.key()` to look it up");
                },
                None => {},
            }
        },
        Kind::Value => {
            match &b.rule_ref {
                Some(r) => {
                    doc.append("the value of the `");
                    doc.append(r.as_str());
                    doc.append("` rule, already evaluated");
                },
                None => {},
            }
        },
        Kind::Text => {
            match &b.token {
                Some(t) => {
                    doc.append("the text of the `");
                    doc.append(t.name.as_str());
                    doc.append("` token");
                },
                None => doc.append("the text this matched"),
            }
        },
    }
    proof {
        assert(doc@ == base_doc_spec(*b));
    }
    match b.cardinality {
        Cardinality::One => {},
        Cardinality::Optional => doc.append(" (optional in the grammar)"),
        Cardinality::Many => {
            doc.append(" (repeated in the grammar");
            if k == Kind::Value {
                doc.append("; items that failed and were already reported are omitted");
            } else {
                doc.append("");
            }
            doc.append(")");
        },
    }

    let mut eval = owned("eval_");
    match &b.rule_ref {
        Some(r) => eval.append(ident(r.as_str()).as_str()),
        None => {},
    }

    let mut ty = String::new();
    let mut extract = String::new();
    match (k, b.cardinality) {
        (Kind::Value, Cardinality::One) => {
            ty.append("Self::Out");
            extract.append(eval.as_str());
            extract.append("(host, &");
            extract.append(field.as_str());
            extract.append(", cx)?");
        },
        (Kind::Value, Cardinality::Optional) => {
            ty.append("Option<Self::Out>");
            extract.append("match &");
            extract.append(field.as_str());
            extract.append(" { Some(n) => Some(");
            extract.append(eval.as_str());
            extract.append("(host, n, cx)?), None => None }");
        },
        (Kind::Value, Cardinality::Many) => {
            ty.append("Vec<Self::Out>");
            extract.append("{\n                let mut v = Vec::new();\n                for n in &");
            extract.append(field.as_str());
            extract.append(" {\n                    match ");
            extract.append(eval.as_str());
            extract.append("(host, n, cx) {\n                        Ok(x) => v.push(x),\n                        Err(Error::AlreadyReported) => continue,\n                        Err(e) => return Err(e),\n                    }\n                }\n                v\n            }");
        },
        (_, Cardinality::One) => {
            ty.append("&");
            ty.append(borrow.as_str());
            extract.append("&");
            extract.append(field.as_str());
        },
        (Kind::Text, Cardinality::Optional) => {
            ty.append("Option<&str>");
            extract.append(field.as_str());
            extract.append(".as_deref()");
        },
        (_, Cardinality::Optional) => {
            ty.append("Option<&");
            ty.append(borrow.as_str());
            ty.append(">");
            extract.append(field.as_str());
            extract.append(".as_ref()");
        },
        (_, Cardinality::Many) => {
            ty.append("&[");
            ty.append(elem.as_str());
            ty.append("]");
            extract.append("&");
            extract.append(field.as_str());
        },
    }
    Param { name: owned(b.name.as_str()), ty, extract, doc }
}

pub(crate) fn contains_name(seen: &Vec<String>, name: &str) -> (b: bool)
    ensures
        b == exists|j: int| 0 <= j < seen@.len() && #[trigger] seen@[j]@ == name@,
{
    let mut j: usize = 0;
    while j < seen.len()
        invariant
            j <= seen@.len(),
            forall|k: int| 0 <= k < j ==> (#[trigger] seen@[k])@ != name@,
        decreases seen@.len() - j,
    {
        if str_eq(seen[j].as_str(), name) {
            return true;
        }
        j = j + 1;
    }
    false
}

/// One parameter per distinct binding name, in grammar order.
pub fn params(alt: &LoweredAlternative) -> (out: Vec<Param>)
    ensures
        out@.len() == first_bindings(alt.bindings@).len(),
        forall|i: int| 0 <= i < out@.len() ==> param_of(#[trigger] out@[i], first_bindings(alt.bindings@)[i]),
{
    let bs = &alt.bindings;
    let mut out: Vec<Param> = Vec::new();
    let mut seen: Vec<String> = Vec::new();
    let mut i: usize = 0;
    while i < bs.len()
        invariant
            i <= bs@.len(),
            out@.len() == first_bindings(bs@.take(i as int)).len(),
            forall|k: int| 0 <= k < out@.len() ==> param_of(#[trigger] out@[k], first_bindings(bs@.take(i as int))[k]),
            seen@.len() == i,
            forall|k: int| 0 <= k < i ==> (#[trigger] seen@[k])@ == bs@[k].name@,
        decreases bs@.len() - i,
    {
        let b = &bs[i];
        let dup = contains_name(&seen, b.name.as_str());
        proof {
            let t = bs@.take(i + 1);
            assert(t.drop_last() =~= bs@.take(i as int));
            assert(t.last() == bs@[i as int]);
            if dup {
                let j = choose|j: int| 0 <= j < seen@.len() && #[trigger] seen@[j]@ == b.name@;
                assert(t[j].name@ == t.last().name@);
            } else {
                assert forall|j: int| 0 <= j < t.len() - 1 implies #[trigger] t[j].name@ != t.last().name@ by {
                    assert(seen@[j]@ == bs@[j].name@);
                }
            }
        }
        if !dup {
            out.push(param(b));
        }
        seen.push(owned(b.name.as_str()));
        i = i + 1;
    }
    proof {
        assert(bs@.take(bs@.len() as int) =~= bs@);
    }
    out
}

pub open spec fn signature_spec(ps: Seq<Param>) -> Seq<char>
    decreases ps.len(),
{
    if ps.len() == 0 {
        Seq::empty()
    } else {
        signature_spec(ps.drop_last()) + ", "@ + ident_spec(ps.last().name@) + ": "@ + ps.last().ty@
    }
}

pub open spec fn doc_lines_spec(ps: Seq<Param>) -> Seq<char>
    decreases ps.len(),
{
    if ps.len() == 0 {
        Seq::empty()
    } else {
        doc_lines_spec(ps.drop_last()) + "    /// * `"@ + ps.last().name@ + "` — "@ + ps.last().doc@ + "\n"@
    }
}

impl Param {
    /// `, name: Ty, name: Ty`, appended after `&mut self`.
    pub fn signature(params: &[Param]) -> (s: String)
        ensures
            s@ == signature_spec(params@),
    {
        let mut s = String::new();
        let mut i: usize = 0;
        while i < params.len()
            invariant
                i <= params@.len(),
                s@ == signature_spec(params@.take(i as int)),
            decreases params@.len() - i,
        {
            s.append(", ");
            s.append(ident(params[i].name.as_str()).as_str());
            s.append(": ");
            s.append(params[i].ty.as_str());
            proof {
                assert(params@.take(i + 1).drop_last() =~= params@.take(i as int));
            }
            i = i + 1;
        }
        proof {
            assert(params@.take(params@.len() as int) =~= params@);
        }
        s
    }

    /// One rustdoc bullet per parameter: its name and what it holds.
    pub fn doc_lines(params: &[Param]) -> (s: String)
        ensures
            s@ == doc_lines_spec(params@),
    {
        let mut s = String::new();
        let mut i: usize = 0;
        while i < params.len()
            invariant
                i <= params@.len(),
                s@ == doc_lines_spec(params@.take(i as int)),
            decreases params@.len() - i,
        {
            s.append("    /// * `");
            s.append(params[i].name.as_str());
            s.append("` — ");
            s.append(params[i].doc.as_str());
            s.append("\n");
            proof {
                assert(params@.take(i + 1).drop_last() =~= params@.take(i as int));
            }
            i = i + 1;
        }
        proof {
            assert(params@.take(params@.len() as int) =~= params@);
        }
        s
    }
}

} // verus!
