//! Merging imported files into one grammar.
//!
//! Definitions from every file land in one flat namespace. Skips, tokens and
//! rules share it, because they all become `.pest` rules. A name defined twice
//! is an error naming both places, never last-wins; the first definition, in
//! the order the files are given, is the one kept.

use vstd::prelude::*;
use crate::syntax::ast::{Ast, RuleDef, SkipDef, TokenDef, CaseMode};
use crate::syntax::error::{Diagnostic, Errors, Severity};
use crate::syntax::parse::{items_in, located_in, parse_file};
use crate::syntax::source::{FileId, SourceMap, Span, Spanned};
use crate::text::{cat5, owned, str_eq};

verus! {

/// A definition that claims a name in the shared namespace.
pub trait Declared: Sized {
    spec fn key(self) -> Seq<char>;

    fn declared_name(&self) -> (n: &Spanned<String>)
        ensures
            n.value@ == self.key(),
    ;
}

impl Declared for SkipDef {
    open spec fn key(self) -> Seq<char> {
        self.name.value@
    }

    fn declared_name(&self) -> (n: &Spanned<String>) {
        &self.name
    }
}

impl Declared for TokenDef {
    open spec fn key(self) -> Seq<char> {
        self.name.value@
    }

    fn declared_name(&self) -> (n: &Spanned<String>) {
        &self.name
    }
}

impl Declared for RuleDef {
    open spec fn key(self) -> Seq<char> {
        self.name.value@
    }

    fn declared_name(&self) -> (n: &Spanned<String>) {
        &self.name
    }
}

/// The names that the definitions of `items` claim.
pub open spec fn names_in<T: Declared>(items: Seq<T>) -> Set<Seq<char>> {
    Set::new(|n: Seq<char>| exists|j: int| 0 <= j < items.len() && #[trigger] items[j].key() == n)
}

/// The definitions of `items` that claim a name not already in `defined`
/// nor claimed earlier in `items`, in order.
pub open spec fn fresh<T: Declared>(defined: Set<Seq<char>>, items: Seq<T>) -> Seq<T>
    decreases items.len(),
{
    if items.len() == 0 {
        Seq::empty()
    } else {
        let prev = items.drop_last();
        let kept = fresh(defined, prev);
        if defined.contains(items.last().key()) || names_in(prev).contains(items.last().key()) {
            kept
        } else {
            kept.push(items.last())
        }
    }
}

/// Whether no two definitions of `items` claim the same name.
pub open spec fn distinct_keys<T: Declared>(items: Seq<T>) -> bool {
    forall|i: int, j: int| 0 <= i < j < items.len() ==> items[i].key() != items[j].key()
}

/// The namespace, the kept skips, tokens and rules, and the number of
/// definitions refused as duplicates, after merging `files` in order.
pub open spec fn merged(files: Seq<Ast>) -> (Set<Seq<char>>, Seq<SkipDef>, Seq<TokenDef>, Seq<RuleDef>, int)
    decreases files.len(),
{
    if files.len() == 0 {
        (Set::empty(), Seq::empty(), Seq::empty(), Seq::empty(), 0)
    } else {
        let p = merged(files.drop_last());
        let a = files.last();
        let d1 = p.0.union(names_in(a.skips@));
        let d2 = d1.union(names_in(a.tokens@));
        let d3 = d2.union(names_in(a.rules@));
        let ks = fresh(p.0, a.skips@);
        let kt = fresh(d1, a.tokens@);
        let kr = fresh(d2, a.rules@);
        (
            d3,
            p.1 + ks,
            p.2 + kt,
            p.3 + kr,
            p.4 + (a.skips@.len() - ks.len()) + (a.tokens@.len() - kt.len()) + (a.rules@.len()
                - kr.len()),
        )
    }
}

/// The first `grammar` declaration among `files`.
pub open spec fn first_grammar(files: Seq<Ast>) -> Option<Spanned<String>>
    decreases files.len(),
{
    if files.len() == 0 {
        None
    } else {
        match first_grammar(files.drop_last()) {
            Some(g) => Some(g),
            None => files.last().grammar_name,
        }
    }
}

/// The number of `grammar` declarations after the first.
pub open spec fn extra_grammars(files: Seq<Ast>) -> int
    decreases files.len(),
{
    if files.len() == 0 {
        0
    } else {
        extra_grammars(files.drop_last()) + if files.last().grammar_name is Some && first_grammar(
            files.drop_last(),
        ) is Some {
            1int
        } else {
            0int
        }
    }
}

/// The first `keywords` case declaration among `files`.
pub open spec fn first_case(files: Seq<Ast>) -> Option<Spanned<CaseMode>>
    decreases files.len(),
{
    if files.len() == 0 {
        None
    } else {
        match first_case(files.drop_last()) {
            Some(c) => Some(c),
            None => files.last().keywords_case,
        }
    }
}

/// The number of `keywords` declarations that contradict the first.
pub open spec fn case_conflicts(files: Seq<Ast>) -> int
    decreases files.len(),
{
    if files.len() == 0 {
        0
    } else {
        case_conflicts(files.drop_last()) + match (files.last().keywords_case, first_case(
            files.drop_last(),
        )) {
            (Some(m), Some(p)) => if m.value != p.value {
                1int
            } else {
                0int
            },
            _ => 0int,
        }
    }
}

/// How many errors merging `files` reports.
pub open spec fn merge_errors(files: Seq<Ast>) -> int {
    merged(files).4 + extra_grammars(files) + case_conflicts(files) + if first_grammar(
        files,
    ) is None {
        1int
    } else {
        0int
    }
}

/// The concatenation, in file order, of one part of each file.
pub open spec fn gather<T>(files: Seq<Ast>, part: spec_fn(Ast) -> Seq<T>) -> Seq<T>
    decreases files.len(),
{
    if files.len() == 0 {
        Seq::empty()
    } else {
        gather(files.drop_last(), part) + part(files.last())
    }
}

pub open spec fn uses_of() -> spec_fn(Ast) -> Seq<crate::syntax::ast::UsePreset> {
    |a: Ast| a.uses@
}

pub open spec fn precedence_of() -> spec_fn(Ast) -> Seq<crate::syntax::ast::PrecedenceBlock> {
    |a: Ast| a.precedence@
}

pub open spec fn reserved_of() -> spec_fn(Ast) -> Seq<crate::syntax::ast::ReservedDef> {
    |a: Ast| a.reserved@
}

pub open spec fn guards_of() -> spec_fn(Ast) -> Seq<crate::syntax::ast::GuardDef> {
    |a: Ast| a.guards@
}

pub open spec fn boundaries_of() -> spec_fn(Ast) -> Seq<crate::syntax::ast::BoundaryDef> {
    |a: Ast| a.boundaries@
}

pub open spec fn recovers_of() -> spec_fn(Ast) -> Seq<crate::syntax::ast::RecoverDef> {
    |a: Ast| a.recovers@
}

pub open spec fn expects_of() -> spec_fn(Ast) -> Seq<crate::syntax::ast::ExpectDef> {
    |a: Ast| a.expects@
}

pub open spec fn allows_of() -> spec_fn(Ast) -> Seq<crate::syntax::ast::AllowDef> {
    |a: Ast| a.allows@
}

/// The names recorded in a namespace table.
pub open spec fn table_names(t: Seq<(String, &'static str, Span)>) -> Set<Seq<char>> {
    Set::new(|n: Seq<char>| exists|j: int| 0 <= j < t.len() && #[trigger] t[j].0@ == n)
}

/// Whether `ds` extends `before` with `count` errors.
pub open spec fn appends_errors(before: Seq<Diagnostic>, ds: Seq<Diagnostic>, count: int) -> bool {
    &&& count >= 0
    &&& ds.len() == before.len() + count
    &&& forall|i: int| 0 <= i < before.len() ==> ds[i] == before[i]
    &&& forall|i: int| before.len() <= i < ds.len() ==> (#[trigger] ds[i]).severity == Severity::Error
}

proof fn lemma_names_push<T: Declared>(items: Seq<T>, i: int)
    requires
        0 <= i < items.len(),
    ensures
        names_in(items.take(i + 1)) == names_in(items.take(i)).insert(items[i].key()),
{
    let a = items.take(i + 1);
    let b = items.take(i);
    assert forall|n: Seq<char>| names_in(a).contains(n) <==> names_in(b).insert(items[i].key()).contains(n) by {
        if names_in(a).contains(n) {
            let j = choose|j: int| 0 <= j < a.len() && #[trigger] a[j].key() == n;
            if j < i {
                assert(b[j].key() == n);
            }
        }
        if names_in(b).contains(n) {
            let j = choose|j: int| 0 <= j < b.len() && #[trigger] b[j].key() == n;
            assert(a[j].key() == n);
        }
        if n == items[i].key() {
            assert(a[i].key() == n);
        }
    }
    assert(names_in(a) =~= names_in(b).insert(items[i].key()));
}

proof fn lemma_fresh_push<T: Declared>(defined: Set<Seq<char>>, items: Seq<T>, i: int)
    requires
        0 <= i < items.len(),
    ensures
        fresh(defined, items.take(i + 1)) == if defined.contains(items[i].key()) || names_in(
            items.take(i),
        ).contains(items[i].key()) {
            fresh(defined, items.take(i))
        } else {
            fresh(defined, items.take(i)).push(items[i])
        },
{
    assert(items.take(i + 1).drop_last() =~= items.take(i));
    assert(items.take(i + 1).last() == items[i]);
}

/// What `fresh` keeps claims names outside `defined`, distinct, and among
/// those of `items`; it keeps no more than `items` holds.
proof fn lemma_fresh_facts<T: Declared>(defined: Set<Seq<char>>, items: Seq<T>)
    ensures
        fresh(defined, items).len() <= items.len(),
        distinct_keys(fresh(defined, items)),
        forall|k: int| 0 <= k < fresh(defined, items).len() ==> !defined.contains(
            #[trigger] fresh(defined, items)[k].key(),
        ),
        names_in(fresh(defined, items)).subset_of(names_in(items)),
    decreases items.len(),
{
    if items.len() > 0 {
        let prev = items.drop_last();
        lemma_fresh_facts(defined, prev);
        let kept = fresh(defined, prev);
        let x = items.last();
        assert forall|n: Seq<char>| names_in(prev).contains(n) implies names_in(items).contains(n) by {
            let j = choose|j: int| 0 <= j < prev.len() && #[trigger] prev[j].key() == n;
            assert(items[j].key() == n);
        }
        if !(defined.contains(x.key()) || names_in(prev).contains(x.key())) {
            let f = kept.push(x);
            assert forall|k: int| 0 <= k < kept.len() implies f[k].key() != x.key() by {
                assert(names_in(kept).contains(kept[k].key()));
            }
            assert forall|n: Seq<char>| names_in(f).contains(n) implies names_in(items).contains(n) by {
                let j = choose|j: int| 0 <= j < f.len() && #[trigger] f[j].key() == n;
                if j < kept.len() {
                    assert(kept[j].key() == n);
                    assert(names_in(kept).contains(n));
                } else {
                    assert(items[items.len() - 1].key() == n);
                }
            }
        }
    }
}

/// Finds `name` in a namespace table.
fn find_defined(t: &Vec<(String, &'static str, Span)>, name: &str) -> (r: Option<usize>)
    ensures
        r matches Some(j) ==> j < t@.len() && t@[j as int].0@ == name@,
        r is None ==> !table_names(t@).contains(name@),
{
    let mut j: usize = 0;
    while j < t.len()
        invariant
            j <= t@.len(),
            forall|k: int| 0 <= k < j ==> (#[trigger] t@[k]).0@ != name@,
        decreases t@.len() - j,
    {
        if str_eq(t[j].0.as_str(), name) {
            return Some(j);
        }
        j = j + 1;
    }
    proof {
        if table_names(t@).contains(name@) {
            let k = choose|k: int| 0 <= k < t@.len() && #[trigger] t@[k].0@ == name@;
            assert(t@[k].0@ != name@);
        }
    }
    None
}

/// Adds each definition of `items` to `out` unless its name is taken,
/// reporting each one that is.
fn declare_all<T: Declared>(
    items: Vec<T>,
    kind: &'static str,
    out: &mut Vec<T>,
    defined: &mut Vec<(String, &'static str, Span)>,
    diagnostics: &mut Vec<Diagnostic>,
)
    ensures
        final(out)@ == old(out)@ + fresh(table_names(old(defined)@), items@),
        table_names(final(defined)@) == table_names(old(defined)@).union(names_in(items@)),
        appends_errors(
            old(diagnostics)@,
            final(diagnostics)@,
            items@.len() - fresh(table_names(old(defined)@), items@).len(),
        ),
{
    let ghost all = items@;
    let ghost d0 = table_names(defined@);
    let ghost out0 = out@;
    let ghost diags0 = diagnostics@;
    let mut items = items;
    let n: usize = items.len();
    let mut i: usize = 0;
    proof {
        assert(all.take(0) =~= Seq::<T>::empty());
        assert(names_in(all.take(0)) =~= Set::<Seq<char>>::empty());
        assert(table_names(defined@) =~= d0.union(names_in(all.take(0))));
    }
    while items.len() > 0
        invariant
            i <= all.len(),
            all.len() == n,
            items@ == all.skip(i as int),
            out@ == out0 + fresh(d0, all.take(i as int)),
            table_names(defined@) == d0.union(names_in(all.take(i as int))),
            appends_errors(diags0, diagnostics@, i - fresh(d0, all.take(i as int)).len()),
        decreases items@.len(),
    {
        proof {
            assert(items@.len() == all.len() - i);
        }
        let item = items.remove(0);
        proof {
            assert(all.skip(i as int)[0] == all[i as int]);
            assert(all.skip(i as int).remove(0) =~= all.skip(i + 1));
            lemma_names_push(all, i as int);
            lemma_fresh_push(d0, all, i as int);
            lemma_fresh_facts(d0, all.take(i as int));
            lemma_fresh_facts(d0, all.take(i + 1));
        }
        let name = item.declared_name();
        match find_defined(defined, name.value.as_str()) {
            Some(j) => {
                let msg = cat5(kind, " `", name.value.as_str(), "` already defined", "");
                let note = cat5("first defined here as ", defined[j].1, " `", name.value.as_str(), "`");
                let d = Diagnostic::error(msg.as_str()).at(name.span).note(
                    note.as_str(),
                    Some(defined[j].2),
                ).help("imports merge into one flat namespace; rename one of them");
                diagnostics.push(d);
                proof {
                    assert(d0.contains(item.key()) || names_in(
                        all.take(i as int),
                    ).contains(item.key())) by {
                        assert(table_names(defined@).contains(name.value@));
                    }
                }
            },
            None => {
                let entry = (owned(name.value.as_str()), kind, name.span);
                proof {
                    assert(!d0.contains(item.key()));
                    assert(!names_in(all.take(i as int)).contains(item.key()));
                }
                let ghost before = defined@;
                defined.push(entry);
                out.push(item);
                proof {
                    let t = defined@;
                    assert(t.drop_last() =~= before);
                    assert(t[t.len() - 1].0@ == all[i as int].key());
                    assert forall|n: Seq<char>| table_names(t).contains(n) <==> d0.union(
                        names_in(all.take(i + 1)),
                    ).contains(n) by {
                        if table_names(t).contains(n) {
                            let k = choose|k: int| 0 <= k < t.len() && #[trigger] t[k].0@ == n;
                            if k < t.len() - 1 {
                                assert(table_names(t.drop_last()).contains(n)) by {
                                    assert(t.drop_last()[k].0@ == n);
                                }
                            }
                        }
                        if d0.union(names_in(all.take(i as int))).contains(n) {
                            assert(table_names(t.drop_last()).contains(n));
                            let k = choose|k: int| 0 <= k < t.drop_last().len() && #[trigger] t.drop_last()[k].0@ == n;
                            assert(t[k].0@ == n);
                        }
                    }
                    assert(table_names(t) =~= d0.union(names_in(all.take(i + 1))));
                }
            },
        }
        i = i + 1;
    }
    proof {
        assert(all.take(all.len() as int) =~= all);
    }
}


proof fn lemma_appends_trans(a: Seq<Diagnostic>, b: Seq<Diagnostic>, c: Seq<Diagnostic>, m: int, n: int)
    requires
        appends_errors(a, b, m),
        appends_errors(b, c, n),
    ensures
        appends_errors(a, c, m + n),
{
    assert forall|i: int| a.len() <= i < c.len() implies (#[trigger] c[i]).severity == Severity::Error by {
        if i < b.len() {
            assert(c[i] == b[i]);
        }
    }
    assert forall|i: int| 0 <= i < a.len() implies c[i] == a[i] by {
        assert(c[i] == b[i]);
    }
}

/// Pushes one error onto `diagnostics`.
fn report(diagnostics: &mut Vec<Diagnostic>, d: Diagnostic)
    requires
        d.severity == Severity::Error,
    ensures
        appends_errors(old(diagnostics)@, final(diagnostics)@, 1),
        final(diagnostics)@ == old(diagnostics)@.push(d),
{
    diagnostics.push(d);
}

/// Merges parsed files, in the order given, into one grammar.
///
/// Skips, tokens and rules keep their first definition; each later
/// definition of a taken name is refused with an error naming both places. A
/// second `grammar` declaration, a `keywords` declaration contradicting the
/// first, and a missing `grammar` declaration are errors too. Everything else
/// is concatenated in file order; imports are dropped, having been followed.
pub fn merge(files: Vec<Ast>, diagnostics: &mut Vec<Diagnostic>) -> (out: Ast)
    ensures
        out.skips@ == merged(files@).1,
        out.tokens@ == merged(files@).2,
        out.rules@ == merged(files@).3,
        out.grammar_name == first_grammar(files@),
        out.keywords_case == first_case(files@),
        out.imports@.len() == 0,
        out.uses@ == gather(files@, uses_of()),
        out.precedence@ == gather(files@, precedence_of()),
        out.reserved@ == gather(files@, reserved_of()),
        out.guards@ == gather(files@, guards_of()),
        out.boundaries@ == gather(files@, boundaries_of()),
        out.recovers@ == gather(files@, recovers_of()),
        out.expects@ == gather(files@, expects_of()),
        out.allows@ == gather(files@, allows_of()),
        appends_errors(old(diagnostics)@, final(diagnostics)@, merge_errors(files@)),
{
    let ghost all = files@;
    let ghost diags0 = diagnostics@;
    let mut files = files;
    let n: usize = files.len();
    let mut out = Ast::blank();
    let mut defined: Vec<(String, &'static str, Span)> = Vec::new();
    let mut k: usize = 0;
    proof {
        assert(all.take(0) =~= Seq::<Ast>::empty());
        assert(table_names(defined@) =~= Set::<Seq<char>>::empty());
        assert(out.skips@ =~= merged(all.take(0)).1);
        assert(out.tokens@ =~= merged(all.take(0)).2);
        assert(out.rules@ =~= merged(all.take(0)).3);
        assert(out.uses@ =~= gather(all.take(0), uses_of()));
        assert(out.precedence@ =~= gather(all.take(0), precedence_of()));
        assert(out.reserved@ =~= gather(all.take(0), reserved_of()));
        assert(out.guards@ =~= gather(all.take(0), guards_of()));
        assert(out.boundaries@ =~= gather(all.take(0), boundaries_of()));
        assert(out.recovers@ =~= gather(all.take(0), recovers_of()));
        assert(out.expects@ =~= gather(all.take(0), expects_of()));
        assert(out.allows@ =~= gather(all.take(0), allows_of()));
    }
    while files.len() > 0
        invariant
            k <= all.len(),
            all.len() == n,
            files@ == all.skip(k as int),
            table_names(defined@) == merged(all.take(k as int)).0,
            out.skips@ == merged(all.take(k as int)).1,
            out.tokens@ == merged(all.take(k as int)).2,
            out.rules@ == merged(all.take(k as int)).3,
            out.grammar_name == first_grammar(all.take(k as int)),
            out.keywords_case == first_case(all.take(k as int)),
            out.imports@.len() == 0,
            out.uses@ == gather(all.take(k as int), uses_of()),
            out.precedence@ == gather(all.take(k as int), precedence_of()),
            out.reserved@ == gather(all.take(k as int), reserved_of()),
            out.guards@ == gather(all.take(k as int), guards_of()),
            out.boundaries@ == gather(all.take(k as int), boundaries_of()),
            out.recovers@ == gather(all.take(k as int), recovers_of()),
            out.expects@ == gather(all.take(k as int), expects_of()),
            out.allows@ == gather(all.take(k as int), allows_of()),
            appends_errors(
                diags0,
                diagnostics@,
                merged(all.take(k as int)).4 + extra_grammars(all.take(k as int)) + case_conflicts(
                    all.take(k as int),
                ),
            ),
        decreases files@.len(),
    {
        proof {
            assert(files@.len() == all.len() - k);
        }
        let ast = files.remove(0);
        let ghost a = ast;
        let ghost done = all.take(k as int);
        let ghost next = all.take(k + 1);
        proof {
            assert(all.skip(k as int)[0] == all[k as int]);
            assert(all.skip(k as int).remove(0) =~= all.skip(k + 1));
            assert(next.drop_last() =~= done);
            assert(next.last() == a);
        }
        let ghost c0 = merged(done).4 + extra_grammars(done) + case_conflicts(done);
        let Ast {
            grammar_name,
            imports: _,
            uses,
            keywords_case,
            precedence,
            skips,
            tokens,
            reserved,
            guards,
            boundaries,
            rules,
            recovers,
            expects,
            allows,
        } = ast;

        let ghost d_start = diagnostics@;
        let mut g_err: usize = 0;
        match grammar_name {
            Some(name) => {
                match &out.grammar_name {
                    Some(prev) => {
                        let d = Diagnostic::error("more than one `grammar` declaration").at(
                            name.span,
                        ).note("first declared here", Some(prev.span)).help(
                            "only the entry file should declare the grammar name",
                        );
                        report(diagnostics, d);
                        g_err = 1;
                    },
                    None => {
                        out.grammar_name = Some(name);
                    },
                }
            },
            None => {},
        }
        proof {
            if g_err == 0 {
                assert(diagnostics@ =~= d_start);
            }
            assert(appends_errors(d_start, diagnostics@, g_err as int));
            lemma_appends_trans(diags0, d_start, diagnostics@, c0, g_err as int);
        }
        let ghost d_mid = diagnostics@;
        let mut c_err: usize = 0;
        match keywords_case {
            Some(mode) => {
                match &out.keywords_case {
                    Some(prev) => {
                        if prev.value != mode.value {
                            let d = Diagnostic::error("conflicting `keywords` case declarations").at(
                                mode.span,
                            ).note("first declared here", Some(prev.span));
                            report(diagnostics, d);
                            c_err = 1;
                        }
                    },
                    None => {
                        out.keywords_case = Some(mode);
                    },
                }
            },
            None => {},
        }
        proof {
            if c_err == 0 {
                assert(diagnostics@ =~= d_mid);
            }
            assert(appends_errors(d_mid, diagnostics@, c_err as int));
            lemma_appends_trans(diags0, d_mid, diagnostics@, c0 + g_err, c_err as int);
        }
        let ghost names0 = table_names(defined@);
        let ghost d1 = diagnostics@;
        declare_all(skips, "skip", &mut out.skips, &mut defined, diagnostics);
        let ghost d2 = diagnostics@;
        declare_all(tokens, "token", &mut out.tokens, &mut defined, diagnostics);
        let ghost d3 = diagnostics@;
        declare_all(rules, "rule", &mut out.rules, &mut defined, diagnostics);
        proof {
            let ks = fresh(names0, a.skips@);
            let n1 = names0.union(names_in(a.skips@));
            let kt = fresh(n1, a.tokens@);
            let n2 = n1.union(names_in(a.tokens@));
            let kr = fresh(n2, a.rules@);
            lemma_appends_trans(diags0, d1, d2, c0 + g_err + c_err, a.skips@.len() - ks.len());
            lemma_appends_trans(
                diags0,
                d2,
                d3,
                c0 + g_err + c_err + (a.skips@.len() - ks.len()),
                a.tokens@.len() - kt.len(),
            );
            lemma_appends_trans(
                diags0,
                d3,
                diagnostics@,
                c0 + g_err + c_err + (a.skips@.len() - ks.len()) + (a.tokens@.len() - kt.len()),
                a.rules@.len() - kr.len(),
            );
        }

        let mut uses = uses;
        out.uses.append(&mut uses);
        let mut precedence = precedence;
        out.precedence.append(&mut precedence);
        let mut reserved = reserved;
        out.reserved.append(&mut reserved);
        let mut guards = guards;
        out.guards.append(&mut guards);
        let mut boundaries = boundaries;
        out.boundaries.append(&mut boundaries);
        let mut recovers = recovers;
        out.recovers.append(&mut recovers);
        let mut expects = expects;
        out.expects.append(&mut expects);
        let mut allows = allows;
        out.allows.append(&mut allows);
        k = k + 1;
        proof {
            assert(g_err == 1 <==> (a.grammar_name is Some && first_grammar(done) is Some));
            assert(merged(next).4 + extra_grammars(next) + case_conflicts(next) == c0 + g_err + c_err
                + (a.skips@.len() - fresh(names0, a.skips@).len()) + (a.tokens@.len() - fresh(
                names0.union(names_in(a.skips@)),
                a.tokens@,
            ).len()) + (a.rules@.len() - fresh(
                names0.union(names_in(a.skips@)).union(names_in(a.tokens@)),
                a.rules@,
            ).len()));
        }
    }
    proof {
        assert(all.take(n as int) =~= all);
    }
    if out.grammar_name.is_none() {
        let d = Diagnostic::error("no `grammar` declaration found").help(
            "add `grammar YourLanguage;` to the entry file",
        );
        let ghost before = diagnostics@;
        report(diagnostics, d);
        proof {
            lemma_appends_trans(
                diags0,
                before,
                diagnostics@,
                merged(all).4 + extra_grammars(all) + case_conflicts(all),
                1,
            );
        }
    }
    out
}


proof fn lemma_names_concat<T: Declared>(a: Seq<T>, b: Seq<T>)
    ensures
        names_in(a + b) == names_in(a).union(names_in(b)),
{
    let c = a + b;
    assert forall|n: Seq<char>| names_in(c).contains(n) <==> names_in(a).union(names_in(b)).contains(n) by {
        if names_in(c).contains(n) {
            let j = choose|j: int| 0 <= j < c.len() && #[trigger] c[j].key() == n;
            if j < a.len() {
                assert(a[j].key() == n);
            } else {
                assert(b[j - a.len()].key() == n);
            }
        }
        if names_in(a).contains(n) {
            let j = choose|j: int| 0 <= j < a.len() && #[trigger] a[j].key() == n;
            assert(c[j].key() == n);
        }
        if names_in(b).contains(n) {
            let j = choose|j: int| 0 <= j < b.len() && #[trigger] b[j].key() == n;
            assert(c[j + a.len()].key() == n);
        }
    }
    assert(names_in(c) =~= names_in(a).union(names_in(b)));
}

proof fn lemma_distinct_concat<T: Declared>(a: Seq<T>, b: Seq<T>)
    requires
        distinct_keys(a),
        distinct_keys(b),
        names_in(a).disjoint(names_in(b)),
    ensures
        distinct_keys(a + b),
{
    let c = a + b;
    assert forall|i: int, j: int| 0 <= i < j < c.len() implies c[i].key() != c[j].key() by {
        if i < a.len() && j >= a.len() {
            assert(names_in(a).contains(a[i].key()));
            assert(names_in(b).contains(b[j - a.len()].key()));
        } else if i >= a.len() {
            assert(c[i] == b[i - a.len()]);
            assert(c[j] == b[j - a.len()]);
        }
    }
}

/// Every name of `items` is either in `defined` or claimed by what `fresh`
/// keeps.
proof fn lemma_fresh_covers<T: Declared>(defined: Set<Seq<char>>, items: Seq<T>)
    ensures
        defined.union(names_in(fresh(defined, items))) == defined.union(names_in(items)),
    decreases items.len(),
{
    lemma_fresh_facts(defined, items);
    if items.len() == 0 {
        assert(names_in(items) =~= Set::<Seq<char>>::empty());
        assert(names_in(fresh(defined, items)) =~= Set::<Seq<char>>::empty());
    } else {
        let prev = items.drop_last();
        lemma_fresh_covers(defined, prev);
        lemma_names_push(items, items.len() - 1);
        assert(items.take(items.len() - 1) =~= prev);
        assert(items.take(items.len() as int) =~= items);
        let kept = fresh(defined, prev);
        let x = items.last();
        assert(names_in(items) == names_in(prev).insert(x.key()));
        assert(defined.union(names_in(kept)) == defined.union(names_in(prev)));
        if !(defined.contains(x.key()) || names_in(prev).contains(x.key())) {
            let f = kept.push(x);
            lemma_names_push(f, kept.len() as int);
            assert(f.take(kept.len() as int) =~= kept);
            assert(f.take(kept.len() + 1 as int) =~= f);
            assert(fresh(defined, items) == f);
            assert(names_in(f) == names_in(kept).insert(x.key()));
            assert forall|n: Seq<char>| defined.union(names_in(f)).contains(n) <==> defined.union(names_in(items)).contains(n) by {
                if n != x.key() {
                    assert(defined.union(names_in(kept)).contains(n) <==> defined.union(names_in(prev)).contains(n));
                }
            }
            assert(defined.union(names_in(f)) =~= defined.union(names_in(items)));
        } else {
            assert(fresh(defined, items) == kept);
            assert forall|n: Seq<char>| defined.union(names_in(kept)).contains(n) <==> defined.union(names_in(items)).contains(n) by {
                assert(defined.union(names_in(kept)).contains(n) <==> defined.union(names_in(prev)).contains(n));
            }
            assert(defined.union(names_in(kept)) =~= defined.union(names_in(items)));
        }
    }
}

/// After a merge no name is defined twice, and none is lost: the kept
/// skips, tokens and rules each claim distinct names, no name is claimed by
/// two kinds, and together they claim every name that any file defines.
pub proof fn merged_names_are_unique(files: Seq<Ast>)
    ensures
        distinct_keys(merged(files).1),
        distinct_keys(merged(files).2),
        distinct_keys(merged(files).3),
        names_in(merged(files).1).disjoint(names_in(merged(files).2)),
        names_in(merged(files).1).disjoint(names_in(merged(files).3)),
        names_in(merged(files).2).disjoint(names_in(merged(files).3)),
        names_in(merged(files).1).union(names_in(merged(files).2)).union(
            names_in(merged(files).3),
        ) == merged(files).0,
    decreases files.len(),
{
    if files.len() == 0 {
        assert(names_in(Seq::<SkipDef>::empty()) =~= Set::<Seq<char>>::empty());
        assert(names_in(Seq::<TokenDef>::empty()) =~= Set::<Seq<char>>::empty());
        assert(names_in(Seq::<RuleDef>::empty()) =~= Set::<Seq<char>>::empty());
    } else {
        let p = merged(files.drop_last());
        merged_names_are_unique(files.drop_last());
        let a = files.last();
        let d0 = p.0;
        let d1 = d0.union(names_in(a.skips@));
        let d2 = d1.union(names_in(a.tokens@));
        let ks = fresh(d0, a.skips@);
        let kt = fresh(d1, a.tokens@);
        let kr = fresh(d2, a.rules@);
        lemma_fresh_facts(d0, a.skips@);
        lemma_fresh_facts(d1, a.tokens@);
        lemma_fresh_facts(d2, a.rules@);
        lemma_fresh_covers(d0, a.skips@);
        lemma_fresh_covers(d1, a.tokens@);
        lemma_fresh_covers(d2, a.rules@);
        lemma_names_concat(p.1, ks);
        lemma_names_concat(p.2, kt);
        lemma_names_concat(p.3, kr);
        assert(names_in(ks).disjoint(d0)) by {
            assert forall|n: Seq<char>| names_in(ks).contains(n) implies !d0.contains(n) by {
                let j = choose|j: int| 0 <= j < ks.len() && #[trigger] ks[j].key() == n;
            }
        }
        assert(names_in(kt).disjoint(d1)) by {
            assert forall|n: Seq<char>| names_in(kt).contains(n) implies !d1.contains(n) by {
                let j = choose|j: int| 0 <= j < kt.len() && #[trigger] kt[j].key() == n;
            }
        }
        assert(names_in(kr).disjoint(d2)) by {
            assert forall|n: Seq<char>| names_in(kr).contains(n) implies !d2.contains(n) by {
                let j = choose|j: int| 0 <= j < kr.len() && #[trigger] kr[j].key() == n;
            }
        }
        lemma_distinct_concat(p.1, ks);
        lemma_distinct_concat(p.2, kt);
        lemma_distinct_concat(p.3, kr);
        let s = merged(files);
        assert(names_in(s.1).disjoint(names_in(s.2)));
        assert(names_in(s.1).disjoint(names_in(s.3)));
        assert(names_in(s.2).disjoint(names_in(s.3)));
        assert(names_in(s.1).union(names_in(s.2)).union(names_in(s.3)) =~= s.0);
    }
}


/// `parts` separated by `sep`.
pub open spec fn joined(parts: Seq<Seq<char>>, sep: Seq<char>) -> Seq<char>
    decreases parts.len(),
{
    if parts.len() == 0 {
        Seq::empty()
    } else if parts.len() == 1 {
        parts[0]
    } else {
        joined(parts.drop_last(), sep) + sep + parts.last()
    }
}

/// What a visit to a file found.
#[derive(Clone, Copy, PartialEq, Eq, Structural, Debug)]
pub enum Visit {
    /// The file is being loaded further up: an import cycle, now reported.
    Cycle,
    /// Already loaded through another path; not a duplicate.
    Seen,
    /// Not loaded yet: the caller reads it and calls [`Loader::enter`].
    Fresh,
}

/// Follows imports one file at a time.
///
/// The caller reads files and walks the imports depth-first; the loader
/// decides what each visit means and keeps what was found. Files are kept
/// post-order, so an imported file comes before its importer and is reported
/// as the first definition of anything both define.
pub struct Loader {
    diagnostics: Vec<Diagnostic>,
    /// Canonical path of each file loaded so far, and its id.
    seen: Vec<(String, FileId)>,
    /// Canonical and shown path of each file being loaded, outermost first.
    stack: Vec<(String, String)>,
    /// The parsed file of each entry of `stack`.
    pending: Vec<Ast>,
    files: Vec<Ast>,
}

/// Index of the first entry of `v` whose key is `k`.
pub open spec fn first_index(v: Seq<Seq<char>>, k: Seq<char>) -> int
    decreases v.len(),
{
    if v.len() == 0 {
        -1
    } else if first_index(v.drop_last(), k) >= 0 {
        first_index(v.drop_last(), k)
    } else if v.last() == k {
        v.len() - 1
    } else {
        -1
    }
}

impl Loader {
    #[verifier::type_invariant]
    closed spec fn wf(self) -> bool {
        self.stack@.len() == self.pending@.len()
    }

    /// The diagnostics reported so far.
    pub closed spec fn reported(self) -> Seq<Diagnostic> {
        self.diagnostics@
    }

    /// Canonical paths of the files being loaded, outermost first.
    pub closed spec fn loading(self) -> Seq<Seq<char>> {
        self.stack@.map_values(|e: (String, String)| e.0@)
    }

    /// Shown paths of the files being loaded, outermost first.
    pub closed spec fn loading_shown(self) -> Seq<Seq<char>> {
        self.stack@.map_values(|e: (String, String)| e.1@)
    }

    /// Canonical paths of the files loaded so far, with their ids.
    pub closed spec fn loaded(self) -> Seq<(Seq<char>, FileId)> {
        self.seen@.map_values(|e: (String, FileId)| (e.0@, e.1))
    }

    /// The parsed file being loaded innermost, whose imports are followed
    /// before it finishes.
    pub closed spec fn current(self) -> Option<Ast> {
        if self.pending@.len() == 0 {
            None
        } else {
            Some(self.pending@.last())
        }
    }

    /// The files finished so far, dependencies first.
    pub closed spec fn finished(self) -> Seq<Ast> {
        self.files@
    }

    pub fn new() -> (l: Loader)
        ensures
            l.reported().len() == 0,
            l.loading().len() == 0,
            l.loaded().len() == 0,
            l.finished().len() == 0,
            l.loading_shown().len() == 0,
            l.current() is None,
    {
        Loader {
            diagnostics: Vec::new(),
            seen: Vec::new(),
            stack: Vec::new(),
            pending: Vec::new(),
            files: Vec::new(),
        }
    }

    /// Where `canonical` is among the files being loaded, if it is.
    fn position_in_stack(&self, canonical: &str) -> (r: Option<usize>)
        ensures
            r matches Some(p) ==> p < self.loading().len() && self.loading()[p as int] == canonical@
                && forall|j: int| 0 <= j < p ==> self.loading()[j] != canonical@,
            r is None ==> forall|j: int| 0 <= j < self.loading().len() ==> self.loading()[j] != canonical@,
    {
        let mut pos: usize = 0;
        while pos < self.stack.len()
            invariant
                pos <= self.stack@.len(),
                forall|j: int| 0 <= j < pos ==> self.loading()[j] != canonical@,
            decreases self.stack@.len() - pos,
        {
            proof {
                assert(self.loading()[pos as int] == self.stack@[pos as int].0@);
            }
            if str_eq(self.stack[pos].0.as_str(), canonical) {
                return Some(pos);
            }
            pos = pos + 1;
        }
        None
    }

    fn report(&mut self, d: Diagnostic)
        ensures
            final(self).reported() == old(self).reported().push(d),
            final(self).loading() == old(self).loading(),
            final(self).loading_shown() == old(self).loading_shown(),
            final(self).loaded() == old(self).loaded(),
            final(self).finished() == old(self).finished(),
    {
        proof { use_type_invariant(&*self); }
        let mut ds: Vec<Diagnostic> = Vec::new();
        std::mem::swap(&mut ds, &mut self.diagnostics);
        ds.push(d);
        std::mem::swap(&mut ds, &mut self.diagnostics);
    }

    /// How many files are being loaded.
    pub fn depth(&self) -> (n: usize)
        ensures
            n == self.loading().len(),
    {
        self.stack.len()
    }

    /// Reports a file that could not be read, at the import that named it.
    pub fn cannot_read(&mut self, path: &str, reason: &str, origin: Option<Span>)
        ensures
            final(self).reported().len() == old(self).reported().len() + 1,
            final(self).reported().drop_last() == old(self).reported(),
            final(self).reported().last().severity == Severity::Error,
            final(self).reported().last().message@ == "cannot read `"@ + path@ + "`: "@ + reason@,
            final(self).reported().last().span == origin,
            final(self).loading() == old(self).loading(),
            final(self).loading_shown() == old(self).loading_shown(),
            final(self).loaded() == old(self).loaded(),
            final(self).finished() == old(self).finished(),
    {
        let mut msg = crate::text::cat3("cannot read `", path, "`: ");
        msg.append(reason);
        let d = located(Diagnostic::error(msg.as_str()), origin);
        self.report(d);
        proof {
            assert(final(self).reported().drop_last() =~= old(self).reported());
        }
    }

    /// Decides what reaching the file at `canonical` means.
    ///
    /// A file being loaded further up is an import cycle, reported at
    /// `origin` with the chain of shown paths from that file to this one. A
    /// file already loaded is skipped. Anything else is fresh.
    pub fn visit(&mut self, canonical: &str, shown: &str, origin: Option<Span>) -> (v: Visit)
        ensures
            (v == Visit::Cycle) == old(self).loading().contains(canonical@),
            (v == Visit::Seen) == (!old(self).loading().contains(canonical@) && exists|j: int|
                0 <= j < old(self).loaded().len() && #[trigger] old(self).loaded()[j].0
                    == canonical@),
            v == Visit::Cycle ==> {
                let pos = first_index(old(self).loading(), canonical@);
                let d = final(self).reported().last();
                &&& final(self).reported().len() == old(self).reported().len() + 1
                &&& final(self).reported().drop_last() == old(self).reported()
                &&& d.severity == Severity::Error
                &&& d.message@ == "import cycle detected"@
                &&& d.span == origin
                &&& d.notes@.len() == 1
                &&& d.notes@[0].message@ == joined(
                    old(self).loading_shown().skip(pos).push(shown@),
                    " -> "@,
                )
            },
            v != Visit::Cycle ==> final(self).reported() == old(self).reported(),
            final(self).loading() == old(self).loading(),
            final(self).loading_shown() == old(self).loading_shown(),
            final(self).loaded() == old(self).loaded(),
            final(self).finished() == old(self).finished(),
    {
        proof { use_type_invariant(&*self); }
        let ghost keys = self.loading();
        let found = self.position_in_stack(canonical);
        if let Some(pos) = found {
            proof {
                assert(keys[pos as int] == canonical@);
                assert(keys.contains(canonical@));
                lemma_first_index(keys, canonical@, pos as int);
            }
            let mut chain = String::new();
            let ghost shown_all = self.loading_shown();
            let mut j: usize = pos;
            while j < self.stack.len()
                invariant
                    pos <= j <= self.stack@.len(),
                    shown_all == self.loading_shown(),
                    chain@ == joined(shown_all.subrange(pos as int, j as int), " -> "@),
                decreases self.stack@.len() - j,
            {
                if j > pos {
                    chain.append(" -> ");
                }
                chain.append(self.stack[j].1.as_str());
                proof {
                    let parts = shown_all.subrange(pos as int, j + 1);
                    assert(parts.drop_last() =~= shown_all.subrange(pos as int, j as int));
                    assert(parts.last() == self.stack@[j as int].1@);
                    if j == pos {
                        assert(shown_all.subrange(pos as int, j as int).len() == 0);
                        assert(joined(shown_all.subrange(pos as int, j as int), " -> "@) =~= Seq::<char>::empty());
                    }
                }
                j = j + 1;
            }
            if self.stack.len() > pos {
                chain.append(" -> ");
            }
            chain.append(shown);
            proof {
                let whole = shown_all.skip(pos as int).push(shown@);
                assert(whole.drop_last() =~= shown_all.subrange(pos as int, self.stack@.len() as int));
                assert(shown_all.len() == self.stack@.len());
            }
            let d = located(
                Diagnostic::error("import cycle detected").note(chain.as_str(), None).help(
                    "remove one of the imports, or move the shared definitions into a third file",
                ),
                origin,
            );
            self.report(d);
            proof {
                assert(final(self).reported().drop_last() =~= old(self).reported());
            }
            return Visit::Cycle;
        }
        proof {
            assert(!keys.contains(canonical@)) by {
                if keys.contains(canonical@) {
                    let j = choose|j: int| 0 <= j < keys.len() && keys[j] == canonical@;
                }
            }
        }
        let mut k: usize = 0;
        while k < self.seen.len()
            invariant
                k <= self.seen@.len(),
                *self == *old(self),
                keys == old(self).loading(),
                !keys.contains(canonical@),
                forall|j: int| 0 <= j < k ==> (#[trigger] self.seen@[j]).0@ != canonical@,
            decreases self.seen@.len() - k,
        {
            proof {
                assert(self.loaded()[k as int] == (self.seen@[k as int].0@, self.seen@[k as int].1));
            }
            if str_eq(self.seen[k].0.as_str(), canonical) {
                proof {
                    assert(self.loaded()[k as int].0 == canonical@);
                }
                return Visit::Seen;
            }
            k = k + 1;
        }
        proof {
            assert forall|j: int| 0 <= j < self.loaded().len() implies #[trigger] self.loaded()[j].0 != canonical@ by {
                assert(self.loaded()[j] == (self.seen@[j].0@, self.seen@[j].1));
                assert(self.seen@[j].0@ != canonical@);
            }
        }
        Visit::Fresh
    }

    /// Records the fresh file at `canonical`, read from `path` with `text`,
    /// and parses it.
    ///
    /// The file joins `sm` and the loaded files either way. When it parses,
    /// it is pushed onto the files being loaded and its imports are returned,
    /// path and span, for the caller to visit before calling
    /// [`Loader::leave`]. When it does not, its syntax error is reported and
    /// `None` returned.
    pub fn enter(
        &mut self,
        sm: &mut SourceMap,
        path: &str,
        canonical: &str,
        shown: &str,
        text: &str,
    ) -> (r: Option<Vec<(String, Span)>>)
        requires
            old(sm)@.len() < u32::MAX,
        ensures
            final(sm)@ == old(sm)@.push((path@, text@)),
            final(self).loaded() == old(self).loaded().push((canonical@, FileId(old(sm)@.len() as u32))),
            final(self).finished() == old(self).finished(),
            r matches Some(imports) ==> {
                &&& final(self).loading() == old(self).loading().push(canonical@)
                &&& final(self).loading_shown() == old(self).loading_shown().push(shown@)
                &&& final(self).reported() == old(self).reported()
                &&& final(self).current() matches Some(ast) && {
                    &&& items_in(ast, FileId(old(sm)@.len() as u32))
                    &&& imports@.len() == ast.imports@.len()
                    &&& forall|i: int| 0 <= i < imports@.len() ==> (#[trigger] imports@[i]).0@
                        == ast.imports@[i].path.value@ && imports@[i].1 == ast.imports@[i].path.span
                }
            },
            r is None ==> {
                &&& final(self).loading() == old(self).loading()
                &&& final(self).loading_shown() == old(self).loading_shown()
                &&& final(self).reported().len() == old(self).reported().len() + 1
                &&& final(self).reported().drop_last() == old(self).reported()
                &&& located_in(final(self).reported().last(), FileId(old(sm)@.len() as u32))
            },
    {
        let mut taken = Loader::new();
        std::mem::swap(self, &mut taken);
        proof { use_type_invariant(&taken); }
        let Loader { diagnostics, seen, stack, pending, files } = taken;
        let mut diagnostics = diagnostics;
        let mut seen = seen;
        let mut stack = stack;
        let mut pending = pending;
        let id = sm.add(path, text);
        seen.push((crate::text::owned(canonical), id));
        match parse_file(sm, id) {
            Ok(ast) => {
                let mut imports: Vec<(String, Span)> = Vec::new();
                let mut i: usize = 0;
                while i < ast.imports.len()
                    invariant
                        i <= ast.imports@.len(),
                        imports@.len() == i,
                        forall|j: int| 0 <= j < i ==> (#[trigger] imports@[j]).0@ == ast.imports@[j].path.value@
                            && imports@[j].1 == ast.imports@[j].path.span,
                    decreases ast.imports@.len() - i,
                {
                    imports.push((crate::text::owned(ast.imports[i].path.value.as_str()), ast.imports[i].path.span));
                    i = i + 1;
                }
                stack.push((crate::text::owned(canonical), crate::text::owned(shown)));
                pending.push(ast);
                *self = Loader { diagnostics, seen, stack, pending, files };
                proof {
                    assert(self.loaded() =~= old(self).loaded().push((canonical@, id)));
                    assert(self.loading() =~= old(self).loading().push(canonical@));
                    assert(self.loading_shown() =~= old(self).loading_shown().push(shown@));
                }
                Some(imports)
            },
            Err(errors) => {
                let Errors(mut ds) = errors;
                let d = ds.remove(0);
                diagnostics.push(d);
                *self = Loader { diagnostics, seen, stack, pending, files };
                proof {
                    assert(self.loaded() =~= old(self).loaded().push((canonical@, id)));
                    assert(self.loading() =~= old(self).loading());
                    assert(self.loading_shown() =~= old(self).loading_shown());
                    assert(self.reported().drop_last() =~= old(self).reported());
                }
                None
            },
        }
    }

    /// Finishes the innermost file being loaded, after its imports.
    pub fn leave(&mut self)
        requires
            old(self).loading().len() > 0,
        ensures
            final(self).loading() == old(self).loading().drop_last(),
            final(self).loading_shown() == old(self).loading_shown().drop_last(),
            old(self).current() matches Some(ast) && final(self).finished() == old(self).finished().push(ast),
            final(self).reported() == old(self).reported(),
            final(self).loaded() == old(self).loaded(),
    {
        let mut taken = Loader::new();
        std::mem::swap(self, &mut taken);
        proof { use_type_invariant(&taken); }
        let Loader { diagnostics, seen, stack, pending, files } = taken;
        let mut stack = stack;
        let mut pending = pending;
        let mut files = files;
        let _ = stack.pop();
        let ast = pending.pop();
        match ast {
            Some(a) => files.push(a),
            None => {},
        }
        *self = Loader { diagnostics, seen, stack, pending, files };
        proof {
            assert(self.loading() =~= old(self).loading().drop_last());
            assert(self.loading_shown() =~= old(self).loading_shown().drop_last());
        }
    }

    /// Merges the finished files. Fails with every diagnostic reported, from
    /// loading and from merging, when any of them is an error.
    pub fn finish(self) -> (r: Result<Ast, Errors>)
        ensures
            r matches Ok(ast) ==> {
                &&& ast.skips@ == merged(self.finished()).1
                &&& ast.tokens@ == merged(self.finished()).2
                &&& ast.rules@ == merged(self.finished()).3
                &&& ast.grammar_name == first_grammar(self.finished())
            },
            r is Ok <==> !crate::operators::has_error(self.reported()) && merge_errors(self.finished()) == 0,
            r matches Err(e) ==> e.0@.take(self.reported().len() as int) == self.reported(),
    {
        let Loader { diagnostics, seen: _, stack: _, pending: _, files } = self;
        let mut diagnostics = diagnostics;
        let ghost before = diagnostics@;
        let ast = merge(files, &mut diagnostics);
        let failed = crate::operators::any_error_in(&diagnostics);
        proof {
            if merge_errors(self.finished()) > 0 {
                assert(diagnostics@[before.len() as int].severity == Severity::Error);
            }
            if crate::operators::has_error(before) {
                let i = choose|i: int| 0 <= i < before.len() && #[trigger] before[i].severity == Severity::Error;
                assert(diagnostics@[i] == before[i]);
            }
            if failed && merge_errors(self.finished()) == 0 {
                let i = choose|i: int| 0 <= i < diagnostics@.len() && #[trigger] diagnostics@[i].severity == Severity::Error;
                assert(diagnostics@[i] == before[i]);
            }
            assert(diagnostics@.take(before.len() as int) =~= before);
        }
        if failed {
            Err(Errors(diagnostics))
        } else {
            Ok(ast)
        }
    }
}

proof fn lemma_first_index(v: Seq<Seq<char>>, k: Seq<char>, p: int)
    requires
        0 <= p < v.len(),
        v[p] == k,
        forall|j: int| 0 <= j < p ==> v[j] != k,
    ensures
        first_index(v, k) == p,
    decreases v.len(),
{
    if v.len() - 1 > p {
        lemma_first_index(v.drop_last(), k, p);
    } else {
        assert forall|j: int| 0 <= j < v.drop_last().len() implies v.drop_last()[j] != k by {}
        lemma_first_index_absent(v.drop_last(), k);
    }
}

proof fn lemma_first_index_absent(v: Seq<Seq<char>>, k: Seq<char>)
    requires
        forall|j: int| 0 <= j < v.len() ==> v[j] != k,
    ensures
        first_index(v, k) == -1,
    decreases v.len(),
{
    if v.len() > 0 {
        lemma_first_index_absent(v.drop_last(), k);
    }
}

/// `d`, located at `span` when there is one.
fn located(d: Diagnostic, span: Option<Span>) -> (r: Diagnostic)
    ensures
        r.span == (match span {
            Some(s) => Some(s),
            None => d.span,
        }),
        r.severity == d.severity,
        r.message == d.message,
        r.notes == d.notes,
        r.help == d.help,
        r.code == d.code,
{
    match span {
        Some(s) => d.at(s),
        None => d,
    }
}

} // verus!
