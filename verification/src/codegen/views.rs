//! Views: one struct per labelled alternative, with an accessor per
//! binding. Because bindings became node tags in the `.pest`, an accessor
//! looks its children up by name, never by position. Views are mechanism:
//! generated dispatch uses them to build a handler's parameters, so each
//! accessor says which parameter it feeds.

use vstd::prelude::*;
use crate::codegen::{ident, ident_spec, module_of, module_part, pascal_name, pascal_name_spec, HEADER};
use crate::codegen::drift::{is_space, join, joined, trim_start, views, white_space};
use crate::codegen::params::{contains_name, doc_spec, first_bindings, param, ty_spec};
use crate::lower::{Binding, Cardinality, Lowered, LoweredAlternative};
use crate::text::{byte_len, chars_of, lemma_utf8_bytes_add, owned, push_char, string_of, utf8_bytes};

verus! {

pub const USES: &'static str = "\n#![allow(dead_code, unused_imports)]\n\nuse nh_runtime::{FileId, Ident, Node, View};\nuse nh_runtime::pest::Pair;\n\nuse ";

pub const EXPR_VIEW: &'static str = "/// View over `expr`, the rule supplied by the operator table.\n///\n/// Exposes the flat operand/operator stream. Folding it by precedence is\n/// the M3 driver's job; until then a language that needs expressions can\n/// override `Handlers::expr` and walk this itself.\n#[derive(Clone, Debug)]\npub struct ExprView<'i> {\n    node: Node<'i, Rule>,\n}\n\nimpl<'i> View<'i, Rule> for ExprView<'i> {\n    fn from_pair(pair: Pair<'i, Rule>, file: FileId) -> Self {\n        ExprView { node: Node::new(pair, file) }\n    }\n\n    fn node(&self) -> &Node<'i, Rule> {\n        &self.node\n    }\n}\n\nimpl<'i> ExprView<'i> {\n    /// Every direct child, operands and operators interleaved.\n    pub fn parts(&self) -> Vec<Node<'i, Rule>> {\n        self.node.children().collect()\n    }\n\n    /// The raw pairs the operator driver folds.\n    pub fn pairs(&self) -> Vec<Pair<'i, Rule>> {\n        self.node.pair().clone().into_inner().collect()\n    }\n}\n\n";

pub const VIEW_DOC_A: &'static str = "/// One matched `";

pub const VIEW_DOC_B: &'static str = "`.\n///\n/// From this alternative of `rule ";

pub const VIEW_DOC_C: &'static str = "`:\n///\n/// ```text\n/// ";

pub const VIEW_DOC_D: &'static str = "\n/// ```\n";

pub const STRUCT_A: &'static str = "#[derive(Clone, Debug)]\npub struct ";

pub const STRUCT_B: &'static str = "<'i> {\n    node: Node<'i, Rule>,\n}\n\nimpl<'i> View<'i, Rule> for ";

pub const STRUCT_C: &'static str = "<'i> {\n    fn from_pair(pair: Pair<'i, Rule>, file: FileId) -> Self {\n        ";

pub const STRUCT_D: &'static str = " { node: Node::new(pair, file) }\n    }\n\n    fn node(&self) -> &Node<'i, Rule> {\n        &self.node\n    }\n}\n\n// Accessors are inherent, so a binding named `text` or `span` shadows\n// the `View` method of that name rather than colliding with it.\nimpl<'i> ";

pub const STRUCT_E: &'static str = "<'i> {\n";

pub const CLOSE: &'static str = "}\n\n";

pub const HOW_A: &'static str = "/// Dispatch turns this into the handler parameter\n    /// `";

pub const HOW_B: &'static str = "`:\n    ";

pub const EXPECT_A: &'static str = "\").expect(\n            \"the grammar guarantees `";

pub const EXPECT_B: &'static str = "` is present; regenerate if it changed\",\n        )";

pub const OPTIONAL_NOTE: &'static str = "\n    /// Optional in the grammar (`?`), so this may be `None`.";

pub const REPEATED_NOTE: &'static str = "\n    /// Repeated in the grammar (`*` or `+`), so this may be empty.";

pub const ACCESSOR_A: &'static str = "\n    /// `";

pub const ACCESSOR_B: &'static str = "` — ";

pub const ACCESSOR_C: &'static str = "\n    ///\n    ";

pub const ACCESSOR_D: &'static str = "\n    pub fn ";

pub const ACCESSOR_E: &'static str = "(&self) -> ";

pub const ACCESSOR_F: &'static str = " {\n        ";

pub const ACCESSOR_G: &'static str = "\n    }\n";

// ---------------------------------------------------------------------------
// Wrapping documentation
//
// A generated file is read far more often than the grammar that produced
// it, and rustfmt will not reflow a comment, so long doc lines are wrapped.
// ---------------------------------------------------------------------------

/// The words of `s` found so far, and the one being read.
pub open spec fn split_words(s: Seq<char>) -> (Seq<Seq<char>>, Seq<char>)
    decreases s.len(),
{
    if s.len() == 0 {
        (Seq::empty(), Seq::empty())
    } else {
        let (ws, cur) = split_words(s.drop_last());
        if white_space(s.last()) {
            if cur.len() > 0 {
                (ws.push(cur), Seq::empty())
            } else {
                (ws, cur)
            }
        } else {
            (ws, cur.push(s.last()))
        }
    }
}

/// The maximal runs of non-whitespace in `s`, in order.
pub open spec fn words(s: Seq<char>) -> Seq<Seq<char>> {
    let (ws, cur) = split_words(s);
    if cur.len() > 0 {
        ws.push(cur)
    } else {
        ws
    }
}

/// Filling lines greedily with `ws`: the lines finished so far and the one
/// being filled. A word goes on the current line unless, with a space before
/// it, the line would pass `width` bytes.
pub open spec fn wrap_state(ws: Seq<Seq<char>>, width: int) -> (Seq<Seq<char>>, Seq<char>)
    decreases ws.len(),
{
    if ws.len() == 0 {
        (Seq::empty(), Seq::empty())
    } else {
        let (done, line) = wrap_state(ws.drop_last(), width);
        let w = ws.last();
        if line.len() > 0 && utf8_bytes(line) + 1 + utf8_bytes(w) > width {
            (done.push(line), w)
        } else if line.len() > 0 {
            (done, line + seq![' '] + w)
        } else {
            (done, w)
        }
    }
}

pub open spec fn prefixed(lines: Seq<Seq<char>>, prefix: Seq<char>) -> Seq<Seq<char>> {
    lines.map_values(|l: Seq<char>| prefix + l)
}

/// `text` wrapped to lines of at most 74 bytes with `prefix`, joined, and
/// without leading whitespace (the first line continues one already begun).
pub open spec fn wrap_text(text: Seq<char>, prefix: Seq<char>) -> Seq<char> {
    let width = 74 - utf8_bytes(prefix);
    let (done, line) = wrap_state(words(text), width);
    trim_start(joined(prefixed(done.push(line), prefix), "\n"@))
}

/// The words of `s`.
fn words_of(s: &str) -> (ws: Vec<String>)
    ensures
        views(ws@) == words(s@),
{
    let v = chars_of(s);
    let mut ws: Vec<String> = Vec::new();
    let mut cur: Vec<char> = Vec::new();
    let mut i: usize = 0;
    proof {
        assert(s@.take(0) =~= Seq::<char>::empty());
        assert(views(ws@) =~= Seq::<Seq<char>>::empty());
    }
    while i < v.len()
        invariant
            v@ == s@,
            i <= v@.len(),
            (views(ws@), cur@) == split_words(s@.take(i as int)),
        decreases v@.len() - i,
    {
        let c = v[i];
        proof {
            assert(s@.take(i + 1).drop_last() =~= s@.take(i as int));
            assert(s@.take(i + 1).last() == c);
        }
        let ghost w0 = ws@;
        if is_space(c) {
            if cur.len() > 0 {
                ws.push(string_of(cur.as_slice()));
                cur = Vec::new();
                proof {
                    assert(views(ws@) =~= views(w0).push(split_words(s@.take(i as int)).1));
                    assert(cur@ =~= Seq::<char>::empty());
                }
            }
        } else {
            cur.push(c);
        }
        i = i + 1;
    }
    proof {
        assert(s@.take(v@.len() as int) =~= s@);
    }
    if cur.len() > 0 {
        let ghost w0 = ws@;
        ws.push(string_of(cur.as_slice()));
        proof {
            assert(views(ws@) =~= views(w0).push(cur@));
        }
    }
    ws
}

/// Leading whitespace removed.
fn trim_start_str(s: &str) -> (r: String)
    ensures
        r@ == trim_start(s@),
{
    let v = chars_of(s);
    let mut i: usize = 0;
    proof {
        assert(s@.skip(0) =~= s@);
    }
    while i < v.len() && is_space(v[i])
        invariant
            v@ == s@,
            i <= v@.len(),
            trim_start(s@) == trim_start(s@.skip(i as int)),
        decreases v@.len() - i,
    {
        proof {
            assert(s@.skip(i as int).skip(1) =~= s@.skip(i + 1));
        }
        i = i + 1;
    }
    let mut r = String::new();
    let mut j = i;
    while j < v.len()
        invariant
            v@ == s@,
            i <= j <= v@.len(),
            r@ == s@.subrange(i as int, j as int),
        decreases v@.len() - j,
    {
        push_char(&mut r, v[j]);
        proof {
            assert(s@.subrange(i as int, j + 1) =~= s@.subrange(i as int, j as int).push(v@[j as int]));
        }
        j = j + 1;
    }
    proof {
        assert(s@.subrange(i as int, v@.len() as int) =~= s@.skip(i as int));
    }
    r
}

/// Wraps a doc line to 74 bytes, each line starting with `prefix`.
fn wrap(text: &str, prefix: &str) -> (r: String)
    requires
        utf8_bytes(prefix@) <= 74,
    ensures
        r@ == wrap_text(text@, prefix@),
{
    let ws = words_of(text);
    let width: u128 = 74 - byte_len(prefix);
    let ghost wv = views(ws@);
    let mut lines: Vec<String> = Vec::new();
    let mut line = String::new();
    let mut line_bytes: u128 = 0;
    let mut i: usize = 0;
    proof {
        assert(wv.take(0) =~= Seq::<Seq<char>>::empty());
        assert(views(lines@) =~= Seq::<Seq<char>>::empty());
    }
    while i < ws.len()
        invariant
            wv == views(ws@),
            i <= ws@.len(),
            width == 74 - utf8_bytes(prefix@),
            (views(lines@), line@) == wrap_state(wv.take(i as int), width as int),
            line_bytes == utf8_bytes(line@),
        decreases ws@.len() - i,
    {
        let w = ws[i].as_str();
        let wb = byte_len(w);
        proof {
            assert(wv.take(i + 1).drop_last() =~= wv.take(i as int));
            assert(wv.take(i + 1).last() == w@);
            crate::text::lemma_utf8_bytes_bound(w@);
        }
        let ghost l0 = lines@;
        let over = line_bytes >= width || wb >= width - line_bytes;
        if !line.as_str().is_empty() && over {
            lines.push(line);
            line = owned(w);
            line_bytes = wb;
            proof {
                assert(views(lines@) =~= views(l0).push(wrap_state(wv.take(i as int), width as int).1));
            }
        } else if !line.as_str().is_empty() {
            let ghost before = line@;
            push_char(&mut line, ' ');
            line.append(w);
            proof {
                lemma_utf8_bytes_add(before, seq![' ']);
                lemma_utf8_bytes_add(before + seq![' '], w@);
                assert(utf8_bytes(seq![' ']) == 1) by {
                    assert(seq![' '].drop_last() =~= Seq::<char>::empty());
                    assert(utf8_bytes(Seq::<char>::empty()) == 0);
                    assert(seq![' '].last() == ' ');
                    assert((' ' as u32) < 0x80);
                }
                assert(line@ =~= before + seq![' '] + w@);
            }
            line_bytes = line_bytes + 1 + wb;
        } else {
            line = owned(w);
            line_bytes = wb;
        }
        i = i + 1;
    }
    proof {
        assert(wv.take(ws@.len() as int) =~= wv);
    }
    let ghost done = views(lines@);
    lines.push(line);
    let mut pre: Vec<String> = Vec::new();
    let mut k: usize = 0;
    while k < lines.len()
        invariant
            k <= lines@.len(),
            views(pre@) == prefixed(views(lines@).take(k as int), prefix@),
        decreases lines@.len() - k,
    {
        let mut p = owned(prefix);
        p.append(lines[k].as_str());
        let ghost p0 = pre@;
        pre.push(p);
        proof {
            assert(views(pre@) =~= views(p0).push(prefix@ + lines@[k as int]@));
            assert(views(lines@).take(k + 1) =~= views(lines@).take(k as int).push(lines@[k as int]@));
            assert(prefixed(views(lines@).take(k + 1), prefix@) =~= prefixed(views(lines@).take(k as int), prefix@).push(
                prefix@ + lines@[k as int]@,
            ));
        }
        k = k + 1;
    }
    proof {
        assert(views(lines@).take(lines@.len() as int) =~= views(lines@));
        assert(views(lines@) =~= done.push(wrap_state(wv, width as int).1));
    }
    let joined_lines = join(&pre, "\n");
    trim_start_str(joined_lines.as_str())
}


// ---------------------------------------------------------------------------
// Accessors
// ---------------------------------------------------------------------------

/// Whether a binding is to a token that folds case.
pub open spec fn folds(b: Binding) -> bool {
    b.token is Some && b.token->0.case_insensitive
}

/// What a binding points at.
pub open spec fn what_text(b: Binding) -> Seq<char> {
    if b.token is Some {
        if b.token->0.case_insensitive {
            "the `"@ + b.token->0.name@ + "` token, which folds case"@
        } else {
            "the `"@ + b.token->0.name@ + "` token"@
        }
    } else if b.rule_ref is Some {
        "the `"@ + b.rule_ref->0@ + "` rule"@
    } else {
        "a matched fragment"@
    }
}

/// Which handler parameter a binding becomes, and what it is.
pub open spec fn how_text(b: Binding) -> Seq<char> {
    HOW_A@ + b.name@ + ": "@ + ty_spec(b) + HOW_B@ + wrap_text(doc_spec(b), "    /// "@)
}

pub open spec fn accessor_type(b: Binding) -> Seq<char> {
    match b.cardinality {
        Cardinality::One => if folds(b) { "Ident<'i, Rule>"@ } else { "Node<'i, Rule>"@ },
        Cardinality::Optional => if folds(b) { "Option<Ident<'i, Rule>>"@ } else { "Option<Node<'i, Rule>>"@ },
        Cardinality::Many => if folds(b) { "Vec<Ident<'i, Rule>>"@ } else { "Vec<Node<'i, Rule>>"@ },
    }
}

pub open spec fn accessor_body(b: Binding) -> Seq<char> {
    let tag = b.name@;
    match b.cardinality {
        Cardinality::One => if folds(b) {
            "Ident::new(self.node.tagged(\""@ + tag + EXPECT_A@ + tag + EXPECT_B@ + ")"@
        } else {
            "self.node.tagged(\""@ + tag + EXPECT_A@ + tag + EXPECT_B@
        },
        Cardinality::Optional => if folds(b) {
            "self.node.tagged(\""@ + tag + "\").map(Ident::new)"@
        } else {
            "self.node.tagged(\""@ + tag + "\")"@
        },
        Cardinality::Many => if folds(b) {
            "self.node.tagged_all(\""@ + tag + "\").into_iter().map(Ident::new).collect()"@
        } else {
            "self.node.tagged_all(\""@ + tag + "\")"@
        },
    }
}

pub open spec fn accessor_note(b: Binding) -> Seq<char> {
    match b.cardinality {
        Cardinality::One => Seq::empty(),
        Cardinality::Optional => OPTIONAL_NOTE@,
        Cardinality::Many => REPEATED_NOTE@,
    }
}

/// One accessor: the grammar fragment, what it is, which parameter it
/// feeds, and the lookup by tag.
pub open spec fn accessor_text(b: Binding) -> Seq<char> {
    ACCESSOR_A@ + b.name@ + ACCESSOR_B@ + what_text(b) + "."@ + accessor_note(b) + ACCESSOR_C@ + how_text(b)
        + ACCESSOR_D@ + ident_spec(b.name@) + ACCESSOR_E@ + accessor_type(b) + ACCESSOR_F@ + accessor_body(b)
        + ACCESSOR_G@
}

pub open spec fn accessors(bs: Seq<Binding>) -> Seq<char>
    decreases bs.len(),
{
    if bs.len() == 0 {
        Seq::empty()
    } else {
        accessors(bs.drop_last()) + accessor_text(bs.last())
    }
}

/// The view of one labelled alternative: its grammar quoted, the struct,
/// and one accessor per distinct binding name.
pub open spec fn view_text(alt: LoweredAlternative) -> Seq<char> {
    let n = pascal_name_spec(alt.pest_rule@) + "View"@;
    VIEW_DOC_A@ + alt.pest_rule@ + VIEW_DOC_B@ + alt.rule@ + VIEW_DOC_C@ + alt.source@ + VIEW_DOC_D@ + STRUCT_A@ + n
        + STRUCT_B@ + n + STRUCT_C@ + n + STRUCT_D@ + n + STRUCT_E@ + accessors(first_bindings(alt.bindings@))
        + CLOSE@
}

pub open spec fn all_views(alts: Seq<LoweredAlternative>) -> Seq<char>
    decreases alts.len(),
{
    if alts.len() == 0 {
        Seq::empty()
    } else {
        all_views(alts.drop_last()) + view_text(alts.last())
    }
}

/// The whole of `generated/views.rs`, importing `Rule` from the module of
/// `parser_type`.
pub open spec fn views_file(l: Lowered, parser_type: Seq<char>) -> Seq<char> {
    HEADER@ + USES@ + module_of(parser_type) + "::Rule;\n\n"@ + all_views(l.alternatives@) + if l.has_expr {
        EXPR_VIEW@
    } else {
        Seq::empty()
    }
}

fn what_of(b: &Binding) -> (s: String)
    ensures
        s@ == what_text(*b),
{
    match &b.token {
        Some(t) => {
            let mut s = owned("the `");
            s.append(t.name.as_str());
            if t.case_insensitive {
                s.append("` token, which folds case");
            } else {
                s.append("` token");
            }
            s
        },
        None => match &b.rule_ref {
            Some(r) => {
                let mut s = owned("the `");
                s.append(r.as_str());
                s.append("` rule");
                s
            },
            None => owned("a matched fragment"),
        },
    }
}

fn emit_note(out: &mut String, b: &Binding)
    ensures
        final(out)@ == old(out)@ + accessor_note(*b),
{
    match b.cardinality {
        Cardinality::One => {
            proof {
                assert(out@ =~= old(out)@ + Seq::<char>::empty());
            }
        },
        Cardinality::Optional => out.append(OPTIONAL_NOTE),
        Cardinality::Many => out.append(REPEATED_NOTE),
    }
}

fn emit_how(out: &mut String, b: &Binding)
    ensures
        final(out)@ == old(out)@ + how_text(*b),
{
    let ghost o = out@;
    let p = param(b);
    proof {
        reveal_strlit("    /// ");
        crate::text::lemma_utf8_bytes_bound("    /// "@);
    }
    out.append(HOW_A);
    out.append(p.name.as_str());
    out.append(": ");
    out.append(p.ty.as_str());
    out.append(HOW_B);
    out.append(wrap(p.doc.as_str(), "    /// ").as_str());
    proof {
        assert(out@ =~= o + how_text(*b));
    }
}

fn folds_of(b: &Binding) -> (f: bool)
    ensures
        f == folds(*b),
{
    match &b.token {
        Some(t) => t.case_insensitive,
        None => false,
    }
}

fn emit_type(out: &mut String, b: &Binding)
    ensures
        final(out)@ == old(out)@ + accessor_type(*b),
{
    let fold = folds_of(b);
    match b.cardinality {
        Cardinality::One => out.append(if fold { "Ident<'i, Rule>" } else { "Node<'i, Rule>" }),
        Cardinality::Optional => out.append(if fold { "Option<Ident<'i, Rule>>" } else { "Option<Node<'i, Rule>>" }),
        Cardinality::Many => out.append(if fold { "Vec<Ident<'i, Rule>>" } else { "Vec<Node<'i, Rule>>" }),
    }
}

fn emit_body(out: &mut String, b: &Binding)
    ensures
        final(out)@ == old(out)@ + accessor_body(*b),
{
    let ghost o = out@;
    let fold = folds_of(b);
    let tag = b.name.as_str();
    match b.cardinality {
        Cardinality::One => {
            if fold {
                out.append("Ident::new(self.node.tagged(\"");
            } else {
                out.append("self.node.tagged(\"");
            }
            out.append(tag);
            out.append(EXPECT_A);
            out.append(tag);
            out.append(EXPECT_B);
            if fold {
                out.append(")");
            }
        },
        Cardinality::Optional => {
            out.append("self.node.tagged(\"");
            out.append(tag);
            out.append(if fold { "\").map(Ident::new)" } else { "\")" });
        },
        Cardinality::Many => {
            out.append("self.node.tagged_all(\"");
            out.append(tag);
            out.append(if fold { "\").into_iter().map(Ident::new).collect()" } else { "\")" });
        },
    }
    proof {
        assert(out@ =~= o + accessor_body(*b));
    }
}

fn emit_accessor(out: &mut String, b: &Binding)
    ensures
        final(out)@ == old(out)@ + accessor_text(*b),
{
    let ghost o = out@;
    let tag = b.name.as_str();
    out.append(ACCESSOR_A);
    out.append(tag);
    out.append(ACCESSOR_B);
    out.append(what_of(b).as_str());
    out.append(".");
    emit_note(out, b);
    out.append(ACCESSOR_C);
    let ghost o1 = out@;
    proof {
        assert(o1 =~= o + ACCESSOR_A@ + b.name@ + ACCESSOR_B@ + what_text(*b) + "."@ + accessor_note(*b)
            + ACCESSOR_C@);
    }
    emit_how(out, b);
    out.append(ACCESSOR_D);
    out.append(ident(tag).as_str());
    out.append(ACCESSOR_E);
    let ghost o2 = out@;
    proof {
        assert(o2 =~= o1 + how_text(*b) + ACCESSOR_D@ + ident_spec(b.name@) + ACCESSOR_E@);
    }
    emit_type(out, b);
    out.append(ACCESSOR_F);
    emit_body(out, b);
    out.append(ACCESSOR_G);
    proof {
        assert(out@ =~= o2 + accessor_type(*b) + ACCESSOR_F@ + accessor_body(*b) + ACCESSOR_G@);
        assert(out@ =~= o + accessor_text(*b));
    }
}

fn emit_view_head(out: &mut String, alt: &LoweredAlternative)
    ensures
        final(out)@ == old(out)@ + VIEW_DOC_A@ + alt.pest_rule@ + VIEW_DOC_B@ + alt.rule@ + VIEW_DOC_C@ + alt.source@
            + VIEW_DOC_D@ + STRUCT_A@ + (pascal_name_spec(alt.pest_rule@) + "View"@) + STRUCT_B@ + (pascal_name_spec(
            alt.pest_rule@,
        ) + "View"@) + STRUCT_C@ + (pascal_name_spec(alt.pest_rule@) + "View"@) + STRUCT_D@ + (pascal_name_spec(
            alt.pest_rule@,
        ) + "View"@) + STRUCT_E@,
{
    let ghost o = out@;
    let mut name = pascal_name(alt.pest_rule.as_str());
    name.append("View");
    out.append(VIEW_DOC_A);
    out.append(alt.pest_rule.as_str());
    out.append(VIEW_DOC_B);
    out.append(alt.rule.as_str());
    out.append(VIEW_DOC_C);
    out.append(alt.source.as_str());
    out.append(VIEW_DOC_D);
    out.append(STRUCT_A);
    out.append(name.as_str());
    out.append(STRUCT_B);
    out.append(name.as_str());
    out.append(STRUCT_C);
    out.append(name.as_str());
    out.append(STRUCT_D);
    out.append(name.as_str());
    out.append(STRUCT_E);
}

#[verifier::rlimit(40)]
#[verifier::spinoff_prover]
fn emit_view(out: &mut String, alt: &LoweredAlternative)
    ensures
        final(out)@ == old(out)@ + view_text(*alt),
{
    let ghost o = out@;
    emit_view_head(out, alt);
    let ghost head = out@;
    let bs = &alt.bindings;
    let mut seen: Vec<String> = Vec::new();
    let mut i: usize = 0;
    proof {
        assert(bs@.take(0) =~= Seq::<Binding>::empty());
        assert(out@ =~= head + accessors(first_bindings(bs@.take(0))));
    }
    while i < bs.len()
        invariant
            i <= bs@.len(),
            out@ == head + accessors(first_bindings(bs@.take(i as int))),
            seen@.len() == i,
            forall|k: int| 0 <= k < i ==> (#[trigger] seen@[k])@ == bs@[k].name@,
        decreases bs@.len() - i,
    {
        let b = &bs[i];
        let dup = contains_name(&seen, b.name.as_str());
        proof {
            let t = bs@.take(i + 1);
            assert(t.drop_last() =~= bs@.take(i as int));
            assert(t.last() == bs@[i as int]);
            if dup {
                let j = choose|j: int| 0 <= j < seen@.len() && #[trigger] seen@[j]@ == b.name@;
                assert(t[j].name@ == t.last().name@);
            } else {
                assert forall|j: int| 0 <= j < t.len() - 1 implies #[trigger] t[j].name@ != t.last().name@ by {
                    assert(seen@[j]@ == bs@[j].name@);
                }
            }
        }
        let ghost before = out@;
        if !dup {
            emit_accessor(out, b);
            proof {
                let t = bs@.take(i + 1);
                assert(first_bindings(t) == first_bindings(bs@.take(i as int)).push(bs@[i as int]));
                assert(first_bindings(t).drop_last() =~= first_bindings(bs@.take(i as int)));
                assert(out@ =~= head + accessors(first_bindings(t)));
            }
        } else {
            proof {
                let t = bs@.take(i + 1);
                assert(first_bindings(t) == first_bindings(bs@.take(i as int)));
            }
        }
        seen.push(owned(b.name.as_str()));
        i = i + 1;
    }
    proof {
        assert(bs@.take(bs@.len() as int) =~= bs@);
    }
    out.append(CLOSE);
    proof {
        assert(out@ =~= o + view_text(*alt));
    }
}

/// `generated/views.rs`: a view per labelled alternative and, when the
/// operator table produced one, the view over `expr`. `Rule` is imported from
/// the module of `parser_type`.
pub fn generate(lowered: &Lowered, parser_type: &str) -> (out: String)
    ensures
        out@ == views_file(*lowered, parser_type@),
{
    let mut out = owned(HEADER);
    out.append(USES);
    out.append(module_part(parser_type).as_str());
    out.append("::Rule;\n\n");
    let ghost head = out@;
    let alts = &lowered.alternatives;
    let mut i: usize = 0;
    proof {
        assert(alts@.take(0) =~= Seq::<LoweredAlternative>::empty());
        assert(out@ =~= head + all_views(alts@.take(0)));
    }
    while i < alts.len()
        invariant
            i <= alts@.len(),
            out@ == head + all_views(alts@.take(i as int)),
        decreases alts@.len() - i,
    {
        emit_view(&mut out, &alts[i]);
        proof {
            let t = alts@.take(i + 1);
            assert(t.drop_last() =~= alts@.take(i as int));
            assert(t.last() == alts@[i as int]);
        }
        i = i + 1;
    }
    proof {
        assert(alts@.take(alts@.len() as int) =~= alts@);
    }
    if lowered.has_expr {
        out.append(EXPR_VIEW);
    }
    proof {
        assert(out@ =~= views_file(*lowered, parser_type@));
    }
    out
}

} // verus!
