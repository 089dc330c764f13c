//! Reference resolution and the identifier-continuation derivation.
//!
//! Only what lowering needs to emit a valid `.pest`: whether a name is a
//! rule, a token, a skip or a builtin, and where an identifier ends.

use vstd::prelude::*;
use crate::lower::names;
use crate::lower::pest_syntax;
use crate::syntax::ast::{Ast, Expr, ExprKind};
use crate::syntax::error::{Diagnostic, Severity};
use crate::syntax::source::{Span, Spanned};
use crate::text::{cat2, cat3, owned, str_eq, str_less};

verus! {

/// Structural builtins: the vocabulary a grammar is written in. Redefining
/// one is an error.
pub open spec fn pest_reserved() -> Seq<Seq<char>> {
    seq![
        "ANY"@, "SOI"@, "EOI"@, "NEWLINE"@, "WHITESPACE"@, "COMMENT"@, "PUSH"@, "POP"@,
        "POP_ALL"@, "PEEK"@, "PEEK_ALL"@, "DROP"@,
    ]
}

/// Builtins that are also natural token names (`NUMBER`, `LETTER`): a
/// definition under one of these is emitted renamed, and every reference
/// rewritten.
pub open spec fn pest_shadowable() -> Seq<Seq<char>> {
    seq![
        "ASCII"@, "ASCII_DIGIT"@, "ASCII_NONZERO_DIGIT"@, "ASCII_BIN_DIGIT"@, "ASCII_OCT_DIGIT"@,
        "ASCII_HEX_DIGIT"@, "ASCII_ALPHA"@, "ASCII_ALPHA_LOWER"@, "ASCII_ALPHA_UPPER"@,
        "ASCII_ALPHANUMERIC"@, "LETTER"@, "NUMBER"@, "UPPERCASE_LETTER"@, "LOWERCASE_LETTER"@,
        "ALPHABETIC"@, "DIGIT_PROPERTY"@, "WHITE_SPACE"@,
    ]
}

fn reserved_list() -> (v: Vec<&'static str>)
    ensures
        v@.map_values(|s: &'static str| s@) == pest_reserved(),
{
    let v: Vec<&'static str> = vec![
        "ANY", "SOI", "EOI", "NEWLINE", "WHITESPACE", "COMMENT", "PUSH", "POP", "POP_ALL", "PEEK",
        "PEEK_ALL", "DROP",
    ];
    assert(v@.map_values(|s: &'static str| s@) =~= pest_reserved());
    v
}

fn shadowable_list() -> (v: Vec<&'static str>)
    ensures
        v@.map_values(|s: &'static str| s@) == pest_shadowable(),
{
    let v: Vec<&'static str> = vec![
        "ASCII", "ASCII_DIGIT", "ASCII_NONZERO_DIGIT", "ASCII_BIN_DIGIT", "ASCII_OCT_DIGIT",
        "ASCII_HEX_DIGIT", "ASCII_ALPHA", "ASCII_ALPHA_LOWER", "ASCII_ALPHA_UPPER",
        "ASCII_ALPHANUMERIC", "LETTER", "NUMBER", "UPPERCASE_LETTER", "LOWERCASE_LETTER",
        "ALPHABETIC", "DIGIT_PROPERTY", "WHITE_SPACE",
    ];
    assert(v@.map_values(|s: &'static str| s@) =~= pest_shadowable());
    v
}

fn in_list(list: &Vec<&'static str>, name: &str) -> (b: bool)
    ensures
        b == list@.map_values(|s: &'static str| s@).contains(name@),
{
    let ghost view = list@.map_values(|s: &'static str| s@);
    let mut i: usize = 0;
    while i < list.len()
        invariant
            i <= list@.len(),
            view == list@.map_values(|s: &'static str| s@),
            forall|j: int| 0 <= j < i ==> #[trigger] view[j] != name@,
        decreases list@.len() - i,
    {
        if str_eq(list[i], name) {
            assert(view[i as int] == name@);
            return true;
        }
        i = i + 1;
    }
    false
}

/// Whether `name` is a builtin, reserved or shadowable.
pub fn is_builtin(name: &str) -> (b: bool)
    ensures
        b == (pest_reserved().contains(name@) || pest_shadowable().contains(name@)),
{
    in_list(&reserved_list(), name) || in_list(&shadowable_list(), name)
}

#[derive(Clone, Copy, PartialEq, Eq, Structural, Debug)]
pub enum DefKind {
    Token,
    Rule,
    Skip,
}

/// The value for `key` in an association list, the first entry that has it.
pub open spec fn lookup<V>(entries: Seq<(String, V)>, key: Seq<char>) -> Option<V>
    decreases entries.len(),
{
    if entries.len() == 0 {
        None
    } else if entries[0].0@ == key {
        Some(entries[0].1)
    } else {
        lookup(entries.drop_first(), key)
    }
}

pub struct Resolution {
    /// Each defined name with its kind, each name once.
    pub defined: Vec<(String, DefKind)>,
    /// Token → what may continue an identifier of that token, as pest
    /// fragments, for keyword boundary guards.
    pub continuations: Vec<(String, Vec<String>)>,
    /// Definitions emitted under another name: those colliding with a
    /// shadowable pest builtin.
    pub renamed: Vec<(String, String)>,
    /// Tokens declared `case-insensitive`.
    pub case_insensitive_tokens: Vec<String>,
}

pub(crate) fn find_index<V>(entries: &Vec<(String, V)>, key: &str) -> (r: Option<usize>)
    ensures
        match r {
            Some(i) => i < entries@.len() && entries@[i as int].0@ == key@ && lookup(entries@, key@)
                == Some(entries@[i as int].1) && forall|j: int| 0 <= j < i ==> #[trigger] entries@[j].0@ != key@,
            None => lookup(entries@, key@) is None,
        },
{
    let mut i: usize = 0;
    assert(entries@.skip(0) =~= entries@);
    while i < entries.len()
        invariant
            i <= entries@.len(),
            lookup(entries@, key@) == lookup(entries@.skip(i as int), key@),
            forall|j: int| 0 <= j < i ==> #[trigger] entries@[j].0@ != key@,
        decreases entries@.len() - i,
    {
        assert(entries@.skip(i as int).drop_first() =~= entries@.skip(i + 1));
        if str_eq(entries[i].0.as_str(), key) {
            return Some(i);
        }
        i = i + 1;
    }
    None
}

impl Resolution {
    /// What `name` is defined as, if it is defined.
    pub fn kind(&self, name: &str) -> (r: Option<DefKind>)
        ensures
            r == lookup(self.defined@, name@),
    {
        match find_index(&self.defined, name) {
            Some(i) => Some(self.defined[i].1),
            None => None,
        }
    }

    /// The name to emit for a reference or definition: the renamed form for
    /// a shadowed builtin, `nh_skip_<name>` for a skip, else the name itself.
    pub fn pest_name(&self, name: &str) -> (s: String)
        ensures
            s@ == match lookup(self.renamed@, name@) {
                Some(n) => n@,
                None => match lookup(self.defined@, name@) {
                    Some(DefKind::Skip) => "nh_skip_"@ + name@,
                    _ => name@,
                },
            },
    {
        match find_index(&self.renamed, name) {
            Some(i) => owned(self.renamed[i].1.as_str()),
            None => match self.kind(name) {
                Some(DefKind::Skip) => names::skip(name),
                _ => owned(name),
            },
        }
    }

    /// Whether `token` was declared `case-insensitive`.
    pub fn is_case_insensitive(&self, token: &str) -> (b: bool)
        ensures
            b == exists|i: int|
                0 <= i < self.case_insensitive_tokens@.len()
                    && #[trigger] self.case_insensitive_tokens@[i]@ == token@,
    {
        let mut i: usize = 0;
        while i < self.case_insensitive_tokens.len()
            invariant
                i <= self.case_insensitive_tokens@.len(),
                forall|j: int| 0 <= j < i ==> #[trigger] self.case_insensitive_tokens@[j]@ != token@,
            decreases self.case_insensitive_tokens@.len() - i,
        {
            if str_eq(self.case_insensitive_tokens[i].as_str(), token) {
                return true;
            }
            i = i + 1;
        }
        false
    }

    /// The continuation fragments derived for `token`, if any.
    pub fn continuation_of(&self, token: &str) -> (r: Option<&Vec<String>>)
        ensures
            match r {
                Some(v) => lookup(self.continuations@, token@) == Some(*v),
                None => lookup(self.continuations@, token@) is None,
            },
    {
        match find_index(&self.continuations, token) {
            Some(i) => Some(&self.continuations[i].1),
            None => None,
        }
    }
}

/// Whether defining `name` as `kind` renames it: a token or rule under a
/// shadowable builtin's name.
pub open spec fn renames(kind: DefKind, name: Seq<char>) -> bool {
    kind != DefKind::Skip && !pest_reserved().contains(name) && pest_shadowable().contains(name)
}

/// Whether `c` is `n` followed by the fewest underscores, one or more, that
/// `defined` leaves free: every shorter such name is defined there.
pub open spec fn underscored(n: Seq<char>, c: Seq<char>, defined: Seq<(String, DefKind)>) -> bool {
    exists|k: nat|
        k >= 1 && c == n + crate::text::repeat_char('_', k) && forall|j: nat|
            1 <= j < k ==> lookup(defined, n + #[trigger] crate::text::repeat_char('_', j)) is Some
}

/// Names defined in `a` stay defined in `b`.
pub open spec fn grows(a: Seq<(String, DefKind)>, b: Seq<(String, DefKind)>) -> bool {
    forall|k: Seq<char>| lookup(a, k) is Some ==> #[trigger] lookup(b, k) is Some
}

proof fn lemma_underscored_grows(n: Seq<char>, c: Seq<char>, a: Seq<(String, DefKind)>, b: Seq<(String, DefKind)>)
    requires
        underscored(n, c, a),
        grows(a, b),
    ensures
        underscored(n, c, b),
{
    let k = choose|k: nat|
        k >= 1 && c == n + crate::text::repeat_char('_', k) && forall|j: nat|
            1 <= j < k ==> lookup(a, n + #[trigger] crate::text::repeat_char('_', j)) is Some;
    assert forall|j: nat| 1 <= j < k implies lookup(b, n + #[trigger] crate::text::repeat_char('_', j)) is Some by {
        assert(lookup(a, n + crate::text::repeat_char('_', j)) is Some);
    }
}

/// Records `name` as `kind`, replacing an earlier kind, and renames a
/// shadowable builtin; a reserved builtin is refused.
fn define(
    name: &Spanned<String>,
    kind: DefKind,
    defined: &mut Vec<(String, DefKind)>,
    renamed: &mut Vec<(String, String)>,
    diagnostics: &mut Vec<Diagnostic>,
)
    ensures
        (kind != DefKind::Skip && pest_reserved().contains(name.value@)) ==> lookup(final(defined)@, name.value@) == lookup(old(defined)@, name.value@),
        !(kind != DefKind::Skip && pest_reserved().contains(name.value@)) ==> lookup(final(defined)@, name.value@) == Some(kind),
        forall|k: Seq<char>| k != name.value@ ==> lookup(final(defined)@, k) == lookup(old(defined)@, k),
        renames(kind, name.value@) ==> (lookup(final(renamed)@, name.value@) matches Some(c) && underscored(
            name.value@,
            c@,
            old(defined)@,
        )),
        grows(old(defined)@, final(defined)@),
        (kind != DefKind::Skip && pest_reserved().contains(name.value@)) ==> error_after(final(diagnostics)@, old(diagnostics)@.len() as int),
        !(kind != DefKind::Skip && pest_reserved().contains(name.value@)) ==> final(diagnostics)@ == old(diagnostics)@,
        !renames(kind, name.value@) ==> final(renamed)@ == old(renamed)@,
        forall|k: Seq<char>| k != name.value@ ==> lookup(final(renamed)@, k) == lookup(old(renamed)@, k),
        final(diagnostics)@.len() >= old(diagnostics)@.len(),
        final(diagnostics)@.take(old(diagnostics)@.len() as int) == old(diagnostics)@,
{
    let n = name.value.as_str();
    proof { assert(old(diagnostics)@.take(old(diagnostics)@.len() as int) =~= old(diagnostics)@); }
    if kind != DefKind::Skip {
        if in_list(&reserved_list(), n) {
            diagnostics.push(
                Diagnostic::error(cat3("`", n, "` is a pest built-in and cannot be redefined").as_str()).at(
                    name.span,
                ).help("this name is part of the vocabulary grammars are written in"),
            );
            proof {
                assert(diagnostics@.take(old(diagnostics)@.len() as int) =~= old(diagnostics)@);
                assert(diagnostics@[old(diagnostics)@.len() as int].severity == Severity::Error);
            }
            return;
        }
        if in_list(&shadowable_list(), n) {
            let mut candidate = cat2(n, "_");
            proof {
                reveal_strlit("_");
                assert(candidate@ =~= n@ + crate::text::repeat_char('_', 1));
            }
            while find_index(defined, candidate.as_str()).is_some()
                invariant
                    underscored(n@, candidate@, defined@),
                decreases usize::MAX - candidate@.len(),
            {
                if candidate.as_str().unicode_len() >= usize::MAX - 1 {
                    break;
                }
                let ghost prev = candidate@;
                crate::text::push_char(&mut candidate, '_');
                proof {
                    let k = choose|k: nat|
                        k >= 1 && prev == n@ + crate::text::repeat_char('_', k) && forall|j: nat|
                            1 <= j < k ==> lookup(defined@, n@ + #[trigger] crate::text::repeat_char('_', j)) is Some;
                    assert(candidate@ =~= n@ + crate::text::repeat_char('_', k + 1));
                    assert forall|j: nat| 1 <= j < k + 1 implies lookup(defined@, n@ + #[trigger] crate::text::repeat_char('_', j)) is Some by {
                        if j == k {
                            assert(n@ + crate::text::repeat_char('_', j) == prev);
                        }
                    }
                }
            }
            let ghost before_renamed = renamed@;
            match find_index(renamed, n) {
                Some(i) => {
                    let e = (owned(n), candidate);
                    proof {
                        lemma_lookup_first(before_renamed, name.value@);
                        let j = choose|j: int| 0 <= j < before_renamed.len() && #[trigger] before_renamed[j].0@ == name.value@ && (
                        forall|k: int| 0 <= k < j ==> #[trigger] before_renamed[k].0@ != name.value@) && lookup(before_renamed, name.value@) == Some(before_renamed[j].1);
                        assert(j == i) by {
                            if j < i {
                            } else if i < j {
                                assert(before_renamed[i as int].0@ == name.value@);
                            }
                        }
                        lemma_lookup_update(before_renamed, i as int, name.value@, e.1);
                        assert forall|k: Seq<char>| k != name.value@ implies lookup(before_renamed.update(i as int, e), k) == lookup(before_renamed, k) by {
                            lemma_lookup_update_other(before_renamed, i as int, e, k);
                        }
                    }
                    renamed.set(i, e);
                },
                None => {
                    let e = (owned(n), candidate);
                    proof {
                        lemma_lookup_push(before_renamed, name.value@, e.1);
                        assert forall|k: Seq<char>| k != name.value@ implies lookup(before_renamed.push(e), k) == lookup(before_renamed, k) by {
                            lemma_lookup_push_other(before_renamed, e, k);
                        }
                    }
                    renamed.push(e);
                },
            }
        }
    }
    let ghost before = defined@;
    match find_index(defined, n) {
        Some(i) => {
            let e = (owned(n), kind);
            proof {
                lemma_lookup_first(before, name.value@);
                let j = choose|j: int| 0 <= j < before.len() && #[trigger] before[j].0@ == name.value@ && (
                forall|k: int| 0 <= k < j ==> #[trigger] before[k].0@ != name.value@) && lookup(before, name.value@) == Some(before[j].1);
                assert(j == i) by {
                    if j < i {
                    } else if i < j {
                        assert(before[i as int].0@ == name.value@);
                    }
                }
                lemma_lookup_update(before, i as int, name.value@, kind);
                assert forall|k: Seq<char>| k != name.value@ implies lookup(before.update(i as int, e), k) == lookup(before, k) by {
                    lemma_lookup_update_other(before, i as int, e, k);
                }
            }
            defined.set(i, e);
        },
        None => {
            let e = (owned(n), kind);
            proof {
                lemma_lookup_push(before, name.value@, kind);
                assert forall|k: Seq<char>| k != name.value@ implies lookup(before.push(e), k) == lookup(before, k) by {
                    lemma_lookup_push_other(before, e, k);
                }
            }
            defined.push(e);
        },
    }
}

pub(crate) proof fn lemma_lookup_update<V>(s: Seq<(String, V)>, i: int, key: Seq<char>, v: V)
    requires
        0 <= i < s.len(),
        s[i].0@ == key,
        forall|j: int| 0 <= j < i ==> #[trigger] s[j].0@ != key,
    ensures
        forall|e: (String, V)| e.0@ == key ==> lookup(#[trigger] s.update(i, e), key) == Some(e.1),
    decreases i,
{
    if i > 0 {
        assert forall|j: int| 0 <= j < i - 1 implies #[trigger] s.drop_first()[j].0@ != key by {
            assert(s.drop_first()[j] == s[j + 1]);
        }
        lemma_lookup_update(s.drop_first(), i - 1, key, v);
    }
    assert forall|e: (String, V)| e.0@ == key implies lookup(#[trigger] s.update(i, e), key) == Some(e.1) by {
        if i > 0 {
            assert(s.update(i, e).drop_first() =~= s.drop_first().update(i - 1, e));
            assert(s.update(i, e)[0] == s[0]);
        } else {
            assert(s.update(i, e)[0] == e);
        }
    }
}

proof fn lemma_lookup_first<V>(s: Seq<(String, V)>, key: Seq<char>)
    ensures
        lookup(s, key) is None ==> forall|j: int| 0 <= j < s.len() ==> #[trigger] s[j].0@ != key,
        lookup(s, key) is Some ==> exists|j: int| 0 <= j < s.len() && #[trigger] s[j].0@ == key && (
        forall|k: int| 0 <= k < j ==> #[trigger] s[k].0@ != key) && lookup(s, key) == Some(s[j].1),
    decreases s.len(),
{
    if s.len() > 0 {
        lemma_lookup_first(s.drop_first(), key);
        if s[0].0@ != key {
            if lookup(s, key) is Some {
                let j = choose|j: int|
                    0 <= j < s.drop_first().len() && #[trigger] s.drop_first()[j].0@ == key && (forall|k: int|
                        0 <= k < j ==> #[trigger] s.drop_first()[k].0@ != key) && lookup(s.drop_first(), key)
                        == Some(s.drop_first()[j].1);
                assert(s[j + 1].0@ == key);
                assert forall|k: int| 0 <= k < j + 1 implies #[trigger] s[k].0@ != key by {
                    if k > 0 {
                        assert(s[k] == s.drop_first()[k - 1]);
                    }
                }
            } else {
                assert forall|j: int| 0 <= j < s.len() implies #[trigger] s[j].0@ != key by {
                    if j > 0 {
                        assert(s[j] == s.drop_first()[j - 1]);
                    }
                }
            }
        } else {
            assert(s[0].0@ == key);
        }
    }
}

pub(crate) proof fn lemma_lookup_push<V>(s: Seq<(String, V)>, key: Seq<char>, v: V)
    requires
        lookup(s, key) is None,
    ensures
        forall|e: (String, V)| e.0@ == key ==> lookup(#[trigger] s.push(e), key) == Some(e.1),
    decreases s.len(),
{
    assert forall|e: (String, V)| e.0@ == key implies lookup(#[trigger] s.push(e), key) == Some(e.1) by {
        if s.len() > 0 {
            lemma_lookup_push(s.drop_first(), key, v);
            assert(s.push(e).drop_first() =~= s.drop_first().push(e));
        }
    }
}

/// Whether a reference to `n` names something: a definition, `expr` where
/// a table supplies it, or a builtin.
pub open spec fn name_known(defined: Seq<(String, DefKind)>, has_table: bool, n: Seq<char>) -> bool {
    ||| lookup(defined, n) is Some
    ||| has_table && n == "expr"@
    ||| pest_reserved().contains(n)
    ||| pest_shadowable().contains(n)
}

/// Whether `e` holds a reference that names nothing.
pub open spec fn unknown_in(e: Expr, defined: Seq<(String, DefKind)>, has_table: bool) -> bool
    decreases e,
{
    match e.kind {
        ExprKind::Ref(name) => !name_known(defined, has_table, name@),
        ExprKind::Sequence(parts) => unknown_in_seq(parts@, defined, has_table),
        ExprKind::Choice(parts) => unknown_in_seq(parts@, defined, has_table),
        ExprKind::Repeat { inner, .. } => unknown_in(*inner, defined, has_table),
        ExprKind::Lookahead { inner, .. } => unknown_in(*inner, defined, has_table),
        ExprKind::Bind { inner, .. } => unknown_in(*inner, defined, has_table),
        _ => false,
    }
}

pub open spec fn unknown_in_seq(parts: Seq<Expr>, defined: Seq<(String, DefKind)>, has_table: bool) -> bool
    decreases parts,
{
    if parts.len() == 0 {
        false
    } else {
        unknown_in_seq(parts.drop_last(), defined, has_table) || unknown_in(parts.last(), defined, has_table)
    }
}

/// Whether `ds` holds an error at or after position `from`.
pub open spec fn error_after(ds: Seq<Diagnostic>, from: int) -> bool {
    exists|k: int| from <= k < ds.len() && #[trigger] ds[k].severity == Severity::Error
}

proof fn lemma_error_kept(a: Seq<Diagnostic>, b: Seq<Diagnostic>, from: int)
    requires
        keeps(a, b),
        error_after(a, from),
        0 <= from,
    ensures
        error_after(b, from),
{
    let k = choose|k: int| from <= k < a.len() && #[trigger] a[k].severity == Severity::Error;
    assert(b.take(a.len() as int)[k] == b[k]);
}

/// The references in `e` that name nothing, one per occurrence, in order.
pub open spec fn unknown_refs(e: Expr, defined: Seq<(String, DefKind)>, has_table: bool) -> Seq<Seq<char>>
    decreases e,
{
    match e.kind {
        ExprKind::Ref(name) => if name_known(defined, has_table, name@) {
            Seq::empty()
        } else {
            seq![name@]
        },
        ExprKind::Sequence(parts) => unknown_refs_seq(parts@, defined, has_table),
        ExprKind::Choice(parts) => unknown_refs_seq(parts@, defined, has_table),
        ExprKind::Repeat { inner, .. } => unknown_refs(*inner, defined, has_table),
        ExprKind::Lookahead { inner, .. } => unknown_refs(*inner, defined, has_table),
        ExprKind::Bind { inner, .. } => unknown_refs(*inner, defined, has_table),
        _ => Seq::empty(),
    }
}

pub open spec fn unknown_refs_seq(parts: Seq<Expr>, defined: Seq<(String, DefKind)>, has_table: bool) -> Seq<Seq<char>>
    decreases parts,
{
    if parts.len() == 0 {
        Seq::empty()
    } else {
        unknown_refs_seq(parts.drop_last(), defined, has_table) + unknown_refs(parts.last(), defined, has_table)
    }
}

/// Whether `d` is the error for an undefined reference to `name`: the
/// message names it, and the help points at the operator system for `expr`
/// and at a definition otherwise.
pub open spec fn undefined_reference(d: Diagnostic, name: Seq<char>) -> bool {
    &&& d.severity == Severity::Error
    &&& d.message@ == "undefined reference `"@ + name + "`"@
    &&& crate::syntax::error::opt_str(d.help) == Some(
        if name == "expr"@ {
            "`expr` comes from the operator system; add `use operators::<preset>;` or a `precedence { .. }` block with an `atom` entry"@
        } else {
            "define it as a `rule` or `token`, or check the spelling"@
        },
    )
}

/// Whether `new` is `old` followed by one undefined-reference error per
/// name of `names`, in order.
pub open spec fn reports_refs(old: Seq<Diagnostic>, new: Seq<Diagnostic>, names: Seq<Seq<char>>) -> bool {
    &&& new.len() == old.len() + names.len()
    &&& new.take(old.len() as int) == old
    &&& forall|k: int| 0 <= k < names.len() ==> undefined_reference(#[trigger] new[old.len() + k], names[k])
}

proof fn lemma_reports_refs_trans(a: Seq<Diagnostic>, b: Seq<Diagnostic>, c: Seq<Diagnostic>, x: Seq<Seq<char>>, y: Seq<Seq<char>>)
    requires
        reports_refs(a, b, x),
        reports_refs(b, c, y),
    ensures
        reports_refs(a, c, x + y),
{
    assert(c.take(a.len() as int) =~= a) by {
        assert forall|j: int| 0 <= j < a.len() implies c[j] == a[j] by {
            assert(c.take(b.len() as int)[j] == b[j]);
            assert(b.take(a.len() as int)[j] == a[j]);
        }
    }
    assert forall|k: int| 0 <= k < (x + y).len() implies undefined_reference(#[trigger] c[a.len() + k], (x + y)[k]) by {
        if k < x.len() {
            assert(c.take(b.len() as int)[a.len() + k] == b[a.len() + k]);
            assert(undefined_reference(b[a.len() + k], x[k]));
        } else {
            assert(undefined_reference(c[b.len() + (k - x.len())], y[k - x.len()]));
        }
    }
}

/// Whether `ds` holds, at or after `from`, the undefined-reference error for
/// `name`.
pub open spec fn reported(ds: Seq<Diagnostic>, from: int, name: Seq<char>) -> bool {
    exists|p: int| from <= p < ds.len() && undefined_reference(#[trigger] ds[p], name)
}

/// Whether every name of `names` has its undefined-reference error in `ds`
/// at or after `from`.
pub open spec fn refs_reported(ds: Seq<Diagnostic>, from: int, names: Seq<Seq<char>>) -> bool {
    forall|k: int| 0 <= k < names.len() ==> #[trigger] reported(ds, from, names[k])
}

proof fn lemma_refs_reported_keeps(a: Seq<Diagnostic>, b: Seq<Diagnostic>, from: int, names: Seq<Seq<char>>)
    requires
        keeps(a, b),
        refs_reported(a, from, names),
        0 <= from,
    ensures
        refs_reported(b, from, names),
{
    assert forall|k: int| 0 <= k < names.len() implies #[trigger] reported(b, from, names[k]) by {
        assert(reported(a, from, names[k]));
        let p = choose|p: int| from <= p < a.len() && undefined_reference(#[trigger] a[p], names[k]);
        assert(b.take(a.len() as int)[p] == b[p]);
        assert(undefined_reference(b[p], names[k]));
    }
}

proof fn lemma_refs_reported_new(a: Seq<Diagnostic>, b: Seq<Diagnostic>, from: int, names: Seq<Seq<char>>)
    requires
        reports_refs(a, b, names),
        0 <= from <= a.len(),
    ensures
        refs_reported(b, from, names),
{
    assert forall|k: int| 0 <= k < names.len() implies #[trigger] reported(b, from, names[k]) by {
        assert(undefined_reference(b[a.len() + k], names[k]));
    }
}

/// Whether the unknown references in the first `ns` skips, `nt` tokens,
/// the alternatives of the first `nr` rules and the first `na` of the next,
/// and the first `nrec` recovery sync expressions are each reported in `ds`
/// from `from` on.
pub open spec fn checked_upto(
    ast: Ast,
    d: Seq<(String, DefKind)>,
    h: bool,
    ds: Seq<Diagnostic>,
    from: int,
    ns: int,
    nt: int,
    nr: int,
    na: int,
    nrec: int,
) -> bool {
    &&& forall|j: int| 0 <= j < ns && j < ast.skips@.len() ==> refs_reported(ds, from, unknown_refs(#[trigger] ast.skips@[j].body, d, h))
    &&& forall|j: int| 0 <= j < nt && j < ast.tokens@.len() ==> refs_reported(ds, from, unknown_refs(#[trigger] ast.tokens@[j].body, d, h))
    &&& forall|j: int, a: int|
        0 <= j < ast.rules@.len() && 0 <= a < ast.rules@[j].alternatives@.len() && (j < nr || (j == nr && a < na))
            ==> refs_reported(ds, from, unknown_refs(#[trigger] ast.rules@[j].alternatives@[a].body, d, h))
    &&& forall|j: int| 0 <= j < nrec && j < ast.recovers@.len() ==> refs_reported(ds, from, unknown_refs(#[trigger] ast.recovers@[j].sync, d, h))
}

proof fn lemma_checked_keeps(
    ast: Ast,
    d: Seq<(String, DefKind)>,
    h: bool,
    a: Seq<Diagnostic>,
    b: Seq<Diagnostic>,
    from: int,
    ns: int,
    nt: int,
    nr: int,
    na: int,
    nrec: int,
)
    requires
        keeps(a, b),
        checked_upto(ast, d, h, a, from, ns, nt, nr, na, nrec),
        0 <= from,
    ensures
        checked_upto(ast, d, h, b, from, ns, nt, nr, na, nrec),
{
    assert forall|j: int| 0 <= j < ns && j < ast.skips@.len() implies refs_reported(b, from, unknown_refs(#[trigger] ast.skips@[j].body, d, h)) by {
        lemma_refs_reported_keeps(a, b, from, unknown_refs(ast.skips@[j].body, d, h));
    }
    assert forall|j: int| 0 <= j < nt && j < ast.tokens@.len() implies refs_reported(b, from, unknown_refs(#[trigger] ast.tokens@[j].body, d, h)) by {
        lemma_refs_reported_keeps(a, b, from, unknown_refs(ast.tokens@[j].body, d, h));
    }
    assert forall|j: int, x: int|
        0 <= j < ast.rules@.len() && 0 <= x < ast.rules@[j].alternatives@.len() && (j < nr || (j == nr && x < na))
            implies refs_reported(b, from, unknown_refs(#[trigger] ast.rules@[j].alternatives@[x].body, d, h)) by {
        lemma_refs_reported_keeps(a, b, from, unknown_refs(ast.rules@[j].alternatives@[x].body, d, h));
    }
    assert forall|j: int| 0 <= j < nrec && j < ast.recovers@.len() implies refs_reported(b, from, unknown_refs(#[trigger] ast.recovers@[j].sync, d, h)) by {
        lemma_refs_reported_keeps(a, b, from, unknown_refs(ast.recovers@[j].sync, d, h));
    }
}

/// Visits every reference in `e` and reports, as an error, each that names
/// nothing; with none, the list is left as it was.
fn check_refs(e: &Expr, defined: &Vec<(String, DefKind)>, has_table: bool, diagnostics: &mut Vec<Diagnostic>)
    ensures
        keeps(old(diagnostics)@, final(diagnostics)@),
        unknown_in(*e, defined@, has_table) ==> error_after(final(diagnostics)@, old(diagnostics)@.len() as int),
        !unknown_in(*e, defined@, has_table) ==> final(diagnostics)@ == old(diagnostics)@,
        reports_refs(old(diagnostics)@, final(diagnostics)@, unknown_refs(*e, defined@, has_table)),
    decreases e,
{
    proof { assert(old(diagnostics)@.take(old(diagnostics)@.len() as int) =~= old(diagnostics)@); }
    match &e.kind {
        ExprKind::Ref(name) => {
            let n = name.as_str();
            proof { reveal_strlit("expr"); }
            let known = find_index(defined, n).is_some() || (has_table && str_eq(n, "expr"));
            if !known && !is_builtin(n) {
                let d = Diagnostic::error(cat3("undefined reference `", n, "`").as_str()).at(e.span);
                let d = if str_eq(n, "expr") {
                    d.help(
                        "`expr` comes from the operator system; add `use operators::<preset>;` or a `precedence { .. }` block with an `atom` entry",
                    )
                } else {
                    d.help("define it as a `rule` or `token`, or check the spelling")
                };
                diagnostics.push(d);
                proof {
                    assert(diagnostics@.take(old(diagnostics)@.len() as int) =~= old(diagnostics)@);
                    assert(diagnostics@[old(diagnostics)@.len() as int].severity == Severity::Error);
                    reveal_strlit("expr");
                    assert(undefined_reference(diagnostics@[old(diagnostics)@.len() as int], unknown_refs(*e, defined@, has_table)[0]));
                }
            } else {
                proof { assert(old(diagnostics)@.take(old(diagnostics)@.len() as int) =~= old(diagnostics)@); }
            }
        },
        ExprKind::Sequence(parts) | ExprKind::Choice(parts) => {
            let mut i: usize = 0;
            proof {
                assert(decreases_to!(e => *parts));
                assert(parts@.take(0) =~= Seq::<Expr>::empty());
                assert(unknown_in(*e, defined@, has_table) == unknown_in_seq(parts@, defined@, has_table));
            }
            while i < parts.len()
                invariant
                    decreases_to!(e => *parts),
                    i <= parts@.len(),
                    keeps(old(diagnostics)@, diagnostics@),
                    unknown_in_seq(parts@.take(i as int), defined@, has_table) ==> error_after(
                        diagnostics@,
                        old(diagnostics)@.len() as int,
                    ),
                    !unknown_in_seq(parts@.take(i as int), defined@, has_table) ==> diagnostics@ == old(diagnostics)@,
                    reports_refs(old(diagnostics)@, diagnostics@, unknown_refs_seq(parts@.take(i as int), defined@, has_table)),
                decreases parts@.len() - i,
            {
                let ghost before = diagnostics@;
                proof { assert(decreases_to!(*parts => parts[i as int])); }
                check_refs(&parts[i], defined, has_table, diagnostics);
                proof {
                    lemma_reports_refs_trans(old(diagnostics)@, before, diagnostics@, unknown_refs_seq(parts@.take(i as int), defined@, has_table), unknown_refs(parts@[i as int], defined@, has_table));
                    lemma_keeps_trans(old(diagnostics)@, before, diagnostics@);
                    assert(parts@.take(i + 1).drop_last() =~= parts@.take(i as int));
                    assert(parts@.take(i + 1).last() == parts@[i as int]);
                    if error_after(before, old(diagnostics)@.len() as int) {
                        lemma_error_kept(before, diagnostics@, old(diagnostics)@.len() as int);
                    }
                    if unknown_in(parts@[i as int], defined@, has_table) {
                        let k = choose|k: int| before.len() <= k < diagnostics@.len() && #[trigger] diagnostics@[k].severity == Severity::Error;
                        assert(old(diagnostics)@.len() <= k);
                    }
                }
                i = i + 1;
            }
            proof { assert(parts@.take(parts@.len() as int) =~= parts@); }
        },
        ExprKind::Repeat { inner, .. } | ExprKind::Lookahead { inner, .. } | ExprKind::Bind { inner, .. } => {
            check_refs(inner, defined, has_table, diagnostics);
        },
        ExprKind::Literal { .. } | ExprKind::CharRange { .. } => {
            proof { assert(unknown_refs(*e, defined@, has_table) =~= Seq::<Seq<char>>::empty()); }
        },
    }
}

/// Pest fragments for every terminal of `e`: references by name, literals
/// and ranges as pest writes them (a range pest cannot write is left out).
pub open spec fn terminals(e: Expr) -> Seq<Seq<char>>
    decreases e,
{
    match e.kind {
        ExprKind::Ref(name) => seq![name@],
        ExprKind::Literal { value, case_insensitive } => seq![pest_syntax::string_spec(value@, case_insensitive)],
        ExprKind::CharRange { lo, hi } => match pest_syntax::char_range_spec(lo@, hi@) {
            Some(r) => seq![r],
            None => Seq::empty(),
        },
        ExprKind::Sequence(parts) => terminals_seq(parts@),
        ExprKind::Choice(parts) => terminals_seq(parts@),
        ExprKind::Repeat { inner, .. } => terminals(*inner),
        ExprKind::Lookahead { inner, .. } => terminals(*inner),
        ExprKind::Bind { inner, .. } => terminals(*inner),
    }
}

pub open spec fn terminals_seq(parts: Seq<Expr>) -> Seq<Seq<char>>
    decreases parts,
{
    if parts.len() == 0 {
        Seq::empty()
    } else {
        terminals_seq(parts.drop_last()) + terminals(parts.last())
    }
}

/// The terminals of every repetition in `e`, outside references.
pub open spec fn repeated(e: Expr) -> Seq<Seq<char>>
    decreases e,
{
    match e.kind {
        ExprKind::Repeat { inner, .. } => terminals(*inner),
        ExprKind::Sequence(parts) => repeated_seq(parts@),
        ExprKind::Choice(parts) => repeated_seq(parts@),
        ExprKind::Lookahead { inner, .. } => repeated(*inner),
        ExprKind::Bind { inner, .. } => repeated(*inner),
        _ => Seq::empty(),
    }
}

pub open spec fn repeated_seq(parts: Seq<Expr>) -> Seq<Seq<char>>
    decreases parts,
{
    if parts.len() == 0 {
        Seq::empty()
    } else {
        repeated_seq(parts.drop_last()) + repeated(parts.last())
    }
}

fn collect_terminals(e: &Expr, out: &mut Vec<String>)
    ensures
        strs(final(out)@) == strs(old(out)@) + terminals(*e),
    decreases e,
{
    let ghost o0 = strs(out@);
    match &e.kind {
        ExprKind::Ref(name) => {
            out.push(owned(name.as_str()));
            proof { assert(strs(out@) =~= o0 + terminals(*e)); }
        },
        ExprKind::Literal { value, case_insensitive } => {
            out.push(pest_syntax::string(value.as_str(), *case_insensitive));
            proof { assert(strs(out@) =~= o0 + terminals(*e)); }
        },
        ExprKind::CharRange { lo, hi } => match pest_syntax::char_range(lo.as_str(), hi.as_str()) {
            Some(r) => {
                out.push(r);
                proof { assert(strs(out@) =~= o0 + terminals(*e)); }
            },
            None => {
                proof { assert(strs(out@) =~= o0 + terminals(*e)); }
            },
        },
        ExprKind::Sequence(parts) | ExprKind::Choice(parts) => {
            let mut i: usize = 0;
            proof {
                assert(decreases_to!(e => *parts));
                assert(parts@.take(0) =~= Seq::<Expr>::empty());
                assert(strs(out@) =~= o0 + terminals_seq(parts@.take(0)));
            }
            while i < parts.len()
                invariant
                    decreases_to!(e => *parts),
                    i <= parts@.len(),
                    strs(out@) == o0 + terminals_seq(parts@.take(i as int)),
                decreases parts@.len() - i,
            {
                proof {
                    assert(decreases_to!(*parts => parts[i as int]));
                    assert(parts@.take(i + 1).drop_last() =~= parts@.take(i as int));
                    assert(parts@.take(i + 1).last() == parts@[i as int]);
                }
                collect_terminals(&parts[i], out);
                proof { assert(strs(out@) =~= o0 + terminals_seq(parts@.take(i + 1))); }
                i = i + 1;
            }
            proof { assert(parts@.take(parts@.len() as int) =~= parts@); }
        },
        ExprKind::Repeat { inner, .. } | ExprKind::Lookahead { inner, .. } | ExprKind::Bind { inner, .. } => {
            collect_terminals(inner, out)
        },
    }
}

/// The terminals of every repetition in `e`: for `(ALPHA | "_") (ALNUM |
/// "_")*` that is `ALNUM | "_"`, exactly the tail class.
fn collect_repeated(e: &Expr, out: &mut Vec<String>)
    ensures
        strs(final(out)@) == strs(old(out)@) + repeated(*e),
    decreases e,
{
    let ghost o0 = strs(out@);
    match &e.kind {
        ExprKind::Repeat { inner, .. } => collect_terminals(inner, out),
        ExprKind::Sequence(parts) | ExprKind::Choice(parts) => {
            let mut i: usize = 0;
            proof {
                assert(decreases_to!(e => *parts));
                assert(parts@.take(0) =~= Seq::<Expr>::empty());
                assert(strs(out@) =~= o0 + repeated_seq(parts@.take(0)));
            }
            while i < parts.len()
                invariant
                    decreases_to!(e => *parts),
                    i <= parts@.len(),
                    strs(out@) == o0 + repeated_seq(parts@.take(i as int)),
                decreases parts@.len() - i,
            {
                proof {
                    assert(decreases_to!(*parts => parts[i as int]));
                    assert(parts@.take(i + 1).drop_last() =~= parts@.take(i as int));
                    assert(parts@.take(i + 1).last() == parts@[i as int]);
                }
                collect_repeated(&parts[i], out);
                proof { assert(strs(out@) =~= o0 + repeated_seq(parts@.take(i + 1))); }
                i = i + 1;
            }
            proof { assert(parts@.take(parts@.len() as int) =~= parts@); }
        },
        ExprKind::Lookahead { inner, .. } | ExprKind::Bind { inner, .. } => collect_repeated(inner, out),
        _ => {
            proof { assert(strs(out@) =~= o0 + repeated(*e)); }
        },
    }
}

/// Sorted (string order) and without repeats.
pub(crate) fn sort_dedup(v: Vec<String>) -> (r: Vec<String>)
    ensures
        forall|i: int, j: int| 0 <= i < j < r@.len() ==> crate::text::seq_less(#[trigger] r@[i]@, #[trigger] r@[j]@),
        forall|x: Seq<char>| #[trigger] strs(r@).contains(x) == strs(v@).contains(x),
{
    let mut r: Vec<String> = Vec::new();
    let mut k: usize = 0;
    while k < v.len()
        invariant
            k <= v@.len(),
            forall|i: int, j: int| 0 <= i < j < r@.len() ==> crate::text::seq_less(#[trigger] r@[i]@, #[trigger] r@[j]@),
            forall|x: Seq<char>| #[trigger] strs(r@).contains(x) == strs(v@.take(k as int)).contains(x),
        decreases v@.len() - k,
    {
        let x = v[k].as_str();
        let ghost xv = x@;
        let mut pos: usize = 0;
        while pos < r.len() && str_less(r[pos].as_str(), x)
            invariant
                pos <= r@.len(),
                forall|m: int| 0 <= m < pos ==> crate::text::seq_less(#[trigger] r@[m]@, x@),
            decreases r@.len() - pos,
        {
            pos = pos + 1;
        }
        let ghost old_r = r@;
        let ghost tk1 = strs(v@.take(k + 1));
        let ghost tk = strs(v@.take(k as int));
        proof {
            assert(tk1 =~= tk.push(xv));
        }
        if !(pos < r.len() && str_eq(r[pos].as_str(), x)) {
            proof {
                if pos < r@.len() {
                    crate::text::lemma_seq_less_total(r@[pos as int]@, x@);
                }
            }
            r.insert(pos, owned(x));
            proof {
                assert(strs(r@) =~= strs(old_r).insert(pos as int, xv));
                assert forall|y: Seq<char>| #[trigger] strs(r@).contains(y) == tk1.contains(y) by {
                    if strs(r@).contains(y) {
                        let j = choose|j: int| #![auto] 0 <= j < strs(r@).len() && strs(r@)[j] == y;
                        if j != pos {
                            if j < pos {
                                assert(strs(old_r)[j] == y);
                            } else {
                                assert(strs(old_r)[j - 1] == y);
                            }
                            assert(strs(old_r).contains(y));
                            assert(tk.contains(y));
                            let i2 = choose|i2: int| #![auto] 0 <= i2 < tk.len() && tk[i2] == y;
                            assert(tk1[i2] == y);
                        } else {
                            assert(tk1[k as int] == y);
                        }
                    }
                    if tk1.contains(y) {
                        let j = choose|j: int| #![auto] 0 <= j < tk1.len() && tk1[j] == y;
                        if j < k {
                            assert(tk[j] == y);
                            assert(strs(old_r).contains(y));
                            let m = choose|m: int| #![auto] 0 <= m < strs(old_r).len() && strs(old_r)[m] == y;
                            if m < pos {
                                assert(strs(r@)[m] == y);
                            } else {
                                assert(strs(r@)[m + 1] == y);
                            }
                        } else {
                            assert(strs(r@)[pos as int] == y);
                        }
                    }
                }
                assert forall|i: int, j: int| 0 <= i < j < r@.len() implies crate::text::seq_less(#[trigger] r@[i]@, #[trigger] r@[j]@) by {
                    if i < pos && j == pos {
                    } else if i == pos {
                        assert(r@[j] == old_r[j - 1]);
                        if j - 1 > pos {
                            crate::text::lemma_seq_less_trans(x@, old_r[pos as int]@, old_r[j - 1]@);
                        }
                    } else if i < pos && j > pos {
                        assert(r@[i] == old_r[i]);
                        assert(r@[j] == old_r[j - 1]);
                    } else if j < pos {
                        assert(r@[i] == old_r[i]);
                        assert(r@[j] == old_r[j]);
                    } else {
                        assert(r@[i] == old_r[i - 1]);
                        assert(r@[j] == old_r[j - 1]);
                    }
                }
            }
        } else {
            proof {
                assert(strs(old_r)[pos as int] == xv);
                assert forall|y: Seq<char>| #[trigger] strs(r@).contains(y) == tk1.contains(y) by {
                    if tk1.contains(y) {
                        let j = choose|j: int| #![auto] 0 <= j < tk1.len() && tk1[j] == y;
                        if j < k {
                            assert(tk[j] == y);
                        }
                    }
                    if strs(r@).contains(y) {
                        assert(tk.contains(y));
                        let j = choose|j: int| #![auto] 0 <= j < tk.len() && tk[j] == y;
                        assert(tk1[j] == y);
                    }
                }
            }
        }
        k = k + 1;
    }
    proof { assert(v@.take(v@.len() as int) =~= v@); }
    r
}

/// The continuation class of a token body, and whether it was derived
/// precisely (from a repetition) rather than from every terminal.
pub open spec fn class_of(body: Expr) -> Seq<Seq<char>> {
    if repeated(body).len() > 0 {
        repeated(body)
    } else {
        terminals(body)
    }
}

fn continuation_class(body: &Expr) -> (r: (Vec<String>, bool))
    ensures
        r.1 == (repeated(*body).len() > 0),
        forall|i: int, j: int| 0 <= i < j < r.0@.len() ==> crate::text::seq_less(#[trigger] r.0@[i]@, #[trigger] r.0@[j]@),
        forall|x: Seq<char>| #[trigger] strs(r.0@).contains(x) == class_of(*body).contains(x),
{
    let mut out: Vec<String> = Vec::new();
    collect_repeated(body, &mut out);
    let derived = out.len() > 0;
    proof { assert(strs(out@) =~= repeated(*body)); }
    if out.len() == 0 {
        collect_terminals(body, &mut out);
        proof { assert(strs(out@) =~= terminals(*body)); }
    }
    (sort_dedup(out), derived)
}

/// The body of the first token named `n`.
pub open spec fn token_body(ts: Seq<crate::syntax::ast::TokenDef>, n: Seq<char>) -> Option<Expr>
    decreases ts.len(),
{
    if ts.len() == 0 {
        None
    } else if ts[0].name.value@ == n {
        Some(ts[0].body)
    } else {
        token_body(ts.drop_first(), n)
    }
}

/// The body of the first `boundary` given for `n`.
pub open spec fn boundary_body(bs: Seq<crate::syntax::ast::BoundaryDef>, n: Seq<char>) -> Option<Expr>
    decreases bs.len(),
{
    if bs.len() == 0 {
        None
    } else if bs[0].token.value@ == n {
        Some(bs[0].body)
    } else {
        boundary_body(bs.drop_first(), n)
    }
}

proof fn lemma_token_body_at(ts: Seq<crate::syntax::ast::TokenDef>, n: Seq<char>, i: int)
    requires
        0 <= i <= ts.len(),
        forall|j: int| 0 <= j < i ==> #[trigger] ts[j].name.value@ != n,
    ensures
        i < ts.len() && ts[i].name.value@ == n ==> token_body(ts, n) == Some(ts[i].body),
        i == ts.len() ==> token_body(ts, n) is None,
    decreases i,
{
    if i > 0 {
        assert forall|j: int| 0 <= j < i - 1 implies #[trigger] ts.drop_first()[j].name.value@ != n by {
            assert(ts.drop_first()[j] == ts[j + 1]);
        }
        lemma_token_body_at(ts.drop_first(), n, i - 1);
    }
}

proof fn lemma_boundary_body_at(bs: Seq<crate::syntax::ast::BoundaryDef>, n: Seq<char>, i: int)
    requires
        0 <= i <= bs.len(),
        forall|j: int| 0 <= j < i ==> #[trigger] bs[j].token.value@ != n,
    ensures
        i < bs.len() && bs[i].token.value@ == n ==> boundary_body(bs, n) == Some(bs[i].body),
        i == bs.len() ==> boundary_body(bs, n) is None,
    decreases i,
{
    if i > 0 {
        assert forall|j: int| 0 <= j < i - 1 implies #[trigger] bs.drop_first()[j].token.value@ != n by {
            assert(bs.drop_first()[j] == bs[j + 1]);
        }
        lemma_boundary_body_at(bs.drop_first(), n, i - 1);
    }
}

/// Whether `v` is strictly ascending.
pub open spec fn ascending(v: Seq<Seq<char>>) -> bool {
    forall|i: int, j: int| 0 <= i < j < v.len() ==> crate::text::seq_less(#[trigger] v[i], #[trigger] v[j])
}

/// Whether a continuation class is derived for token `t`: a `boundary`
/// gives one, or the token's body has something to read it from.
pub open spec fn has_class(ast: Ast, t: Seq<char>) -> bool {
    ||| boundary_body(ast.boundaries@, t) is Some
    ||| token_body(ast.tokens@, t) matches Some(body) && class_of(body).len() > 0
}

/// Whether `v` is the continuation class derived for token `t`, before
/// renaming: the terminals of its first `boundary`, else the class of its
/// first definition, ascending and without repeats.
pub open spec fn derived_class(ast: Ast, t: Seq<char>, v: Seq<Seq<char>>) -> bool {
    match boundary_body(ast.boundaries@, t) {
        Some(b) => v == terminals(b),
        None => match token_body(ast.tokens@, t) {
            Some(body) => class_of(body).len() > 0 && ascending(v) && forall|x: Seq<char>|
                #[trigger] v.contains(x) == class_of(body).contains(x),
            None => false,
        },
    }
}

/// Whether `t` is named by one of the first `r` `reserved from` or the
/// first `g` `guard from` declarations.
pub open spec fn guarded_upto(ast: Ast, t: Seq<char>, r: int, g: int) -> bool {
    ||| exists|j: int| 0 <= j < r && j < ast.reserved@.len() && #[trigger] ast.reserved@[j].token.value@ == t
    ||| exists|j: int| 0 <= j < g && j < ast.guards@.len() && #[trigger] ast.guards@[j].token.value@ == t
}

/// The name a continuation fragment is emitted under: a defined name by its
/// pest name, anything else as written.
pub open spec fn emitted_part(defined: Seq<(String, DefKind)>, renamed: Seq<(String, String)>, p: Seq<char>) -> Seq<char> {
    if lookup(defined, p) is Some {
        match lookup(renamed, p) {
            Some(n) => n@,
            None => match lookup(defined, p) {
                Some(DefKind::Skip) => "nh_skip_"@ + p,
                _ => p,
            },
        }
    } else {
        p
    }
}

fn find_token<'a>(ast: &'a Ast, name: &str) -> (r: Option<&'a crate::syntax::ast::TokenDef>)
    ensures
        (r is Some) == token_named(*ast, name@, ast.tokens@.len() as int),
        r matches Some(d) ==> exists|j: int| 0 <= j < ast.tokens@.len() && ast.tokens@[j] == *d && #[trigger] ast.tokens@[j].name.value@ == name@,
        match r {
            Some(d) => token_body(ast.tokens@, name@) == Some(d.body),
            None => token_body(ast.tokens@, name@) is None,
        },
{
    let mut i: usize = 0;
    while i < ast.tokens.len()
        invariant
            i <= ast.tokens@.len(),
            !token_named(*ast, name@, i as int),
        decreases ast.tokens@.len() - i,
    {
        if str_eq(ast.tokens[i].name.value.as_str(), name) {
            assert(ast.tokens@[i as int].name.value@ == name@);
            proof {
                assert forall|j: int| 0 <= j < i implies #[trigger] ast.tokens@[j].name.value@ != name@ by {
                    if ast.tokens@[j].name.value@ == name@ {
                        assert(token_named(*ast, name@, i as int));
                    }
                }
                lemma_token_body_at(ast.tokens@, name@, i as int);
            }
            return Some(&ast.tokens[i]);
        }
        i = i + 1;
    }
    proof {
        assert forall|j: int| 0 <= j < ast.tokens@.len() implies #[trigger] ast.tokens@[j].name.value@ != name@ by {
            if ast.tokens@[j].name.value@ == name@ {
                assert(token_named(*ast, name@, ast.tokens@.len() as int));
            }
        }
        lemma_token_body_at(ast.tokens@, name@, ast.tokens@.len() as int);
    }
    None
}

/// Whether some `boundary` is given for `n`.
pub open spec fn boundary_named(ast: Ast, n: Seq<char>) -> bool {
    exists|j: int| 0 <= j < ast.boundaries@.len() && #[trigger] ast.boundaries@[j].token.value@ == n
}

/// Whether a `reserved from` or `guard from` names a token that has neither
/// a definition nor a `boundary`.
pub open spec fn guard_unknown(ast: Ast) -> bool {
    ||| exists|i: int|
        0 <= i < ast.reserved@.len() && !boundary_named(ast, #[trigger] ast.reserved@[i].token.value@)
            && !token_named(ast, ast.reserved@[i].token.value@, ast.tokens@.len() as int)
    ||| exists|i: int|
        0 <= i < ast.guards@.len() && !boundary_named(ast, #[trigger] ast.guards@[i].token.value@)
            && !token_named(ast, ast.guards@[i].token.value@, ast.tokens@.len() as int)
}

fn find_boundary<'a>(ast: &'a Ast, name: &str) -> (r: Option<&'a Expr>)
    ensures
        (r is Some) == boundary_named(*ast, name@),
        match r {
            Some(b) => boundary_body(ast.boundaries@, name@) == Some(*b),
            None => boundary_body(ast.boundaries@, name@) is None,
        },
{
    let mut i: usize = 0;
    while i < ast.boundaries.len()
        invariant
            i <= ast.boundaries@.len(),
            forall|j: int| 0 <= j < i ==> #[trigger] ast.boundaries@[j].token.value@ != name@,
        decreases ast.boundaries@.len() - i,
    {
        if str_eq(ast.boundaries[i].token.value.as_str(), name) {
            assert(ast.boundaries@[i as int].token.value@ == name@);
            proof { lemma_boundary_body_at(ast.boundaries@, name@, i as int); }
            return Some(&ast.boundaries[i].body);
        }
        i = i + 1;
    }
    proof { lemma_boundary_body_at(ast.boundaries@, name@, ast.boundaries@.len() as int); }
    None
}

/// Whether `d` pushed nothing but kept `old` as a prefix.
pub open spec fn keeps(old: Seq<Diagnostic>, new: Seq<Diagnostic>) -> bool {
    new.len() >= old.len() && new.take(old.len() as int) == old
}

/// Derives the continuation class for one guarded token.
fn derive_continuation(
    ast: &Ast,
    token: &Spanned<String>,
    what: &str,
    continuations: &mut Vec<(String, Vec<String>)>,
    diagnostics: &mut Vec<Diagnostic>,
)
    ensures
        keeps(old(diagnostics)@, final(diagnostics)@),
        !boundary_named(*ast, token.value@) && !token_named(*ast, token.value@, ast.tokens@.len() as int)
            ==> error_after(final(diagnostics)@, old(diagnostics)@.len() as int),
        guard_exact(*ast, token.value@) ==> final(diagnostics)@ == old(diagnostics)@,
        forall|k: Seq<char>| k != token.value@ ==> #[trigger] lookup(final(continuations)@, k) == lookup(old(continuations)@, k),
        has_class(*ast, token.value@) ==> (lookup(final(continuations)@, token.value@) matches Some(v) && derived_class(
            *ast,
            token.value@,
            strs(v@),
        )),
        !has_class(*ast, token.value@) ==> lookup(final(continuations)@, token.value@) == lookup(old(continuations)@, token.value@),
{
    proof { assert(old(diagnostics)@.take(old(diagnostics)@.len() as int) =~= old(diagnostics)@); }
    let name = token.value.as_str();
    // An explicit `boundary` wins over the derivation.
    match find_boundary(ast, name) {
        Some(body) => {
            let mut parts: Vec<String> = Vec::new();
            collect_terminals(body, &mut parts);
            set_entry(continuations, name, parts);
            return;
        },
        None => {},
    }
    match find_token(ast, name) {
        Some(def) => {
            let (cont, derived) = continuation_class(&def.body);
            proof {
                if guard_exact(*ast, token.value@) {
                    let j = choose|j: int| 0 <= j < ast.tokens@.len() && ast.tokens@[j] == *def && #[trigger] ast.tokens@[j].name.value@ == name@;
                    assert(repeated(def.body).len() > 0);
                    assert(strs(cont@).contains(class_of(def.body)[0]));
                }
                if class_of(def.body).len() > 0 {
                    assert(strs(cont@).contains(class_of(def.body)[0]));
                }
                if cont@.len() > 0 {
                    assert(strs(cont@)[0] == cont@[0]@);
                    assert(strs(cont@).contains(strs(cont@)[0]));
                    assert(class_of(def.body).contains(strs(cont@)[0]));
                }
                assert forall|i: int, j: int| 0 <= i < j < strs(cont@).len() implies crate::text::seq_less(
                    #[trigger] strs(cont@)[i],
                    #[trigger] strs(cont@)[j],
                ) by {
                    assert(strs(cont@)[i] == cont@[i]@);
                    assert(strs(cont@)[j] == cont@[j]@);
                }
            }
            if !derived && cont.len() > 0 {
                let msg = cat3(
                    "cannot derive an identifier boundary for `",
                    name,
                    "` precisely; approximating from every character it can match",
                );
                let help = cat3("state it outright: `boundary ", name, " = <what may follow>;`");
                diagnostics.push(
                    Diagnostic::warning(msg.as_str()).at(token.span).note(
                        "the boundary is normally read from the token's repeated part, and this token has none",
                        Some(def.name.span),
                    ).help(help.as_str()),
                );
            }
            let ghost mid = diagnostics@;
            if cont.len() == 0 {
                diagnostics.push(
                    Diagnostic::error(
                        cat3("cannot derive an identifier boundary for token `", name, "`").as_str(),
                    ).at(token.span).note(
                        "a reserved-word guard needs to know which characters may continue an identifier",
                        Some(def.name.span),
                    ).help("give the token a repeated tail, e.g. `ALPHA (ALNUM | \"_\")*`"),
                );
            } else {
                set_entry(continuations, name, cont);
            }
            proof {
                assert(mid.take(old(diagnostics)@.len() as int) =~= old(diagnostics)@);
                assert(diagnostics@.take(old(diagnostics)@.len() as int) =~= old(diagnostics)@);
            }
        },
        None => {
            diagnostics.push(
                Diagnostic::error(cat5s(what, name).as_str()).at(token.span),
            );
            proof {
                assert(diagnostics@.take(old(diagnostics)@.len() as int) =~= old(diagnostics)@);
                assert(diagnostics@[old(diagnostics)@.len() as int].severity == Severity::Error);
            }
        },
    }
}

fn cat5s(what: &str, name: &str) -> (s: String)
    ensures
        s@ == "`"@ + what@ + "` names unknown token `"@ + name@ + "`"@,
{
    crate::text::cat5("`", what, "` names unknown token `", name, "`")
}

fn set_entry(entries: &mut Vec<(String, Vec<String>)>, key: &str, value: Vec<String>)
    ensures
        lookup(final(entries)@, key@) == Some(value),
        forall|k: Seq<char>| k != key@ ==> #[trigger] lookup(final(entries)@, k) == lookup(old(entries)@, k),
{
    let ghost before = entries@;
    match find_index(entries, key) {
        Some(i) => {
            let e = (owned(key), value);
            proof {
                lemma_lookup_update(before, i as int, key@, e.1);
                assert forall|k: Seq<char>| k != key@ implies #[trigger] lookup(before.update(i as int, e), k) == lookup(before, k) by {
                    lemma_lookup_update_other(before, i as int, e, k);
                }
            }
            entries.set(i, e);
        },
        None => {
            let e = (owned(key), value);
            proof {
                lemma_lookup_push(before, key@, e.1);
                assert forall|k: Seq<char>| k != key@ implies #[trigger] lookup(before.push(e), k) == lookup(before, k) by {
                    lemma_lookup_push_other(before, e, k);
                }
            }
            entries.push(e);
        },
    }
}

/// Whether some skip, token or rule is named `n`, among the first `upto`.
pub open spec fn skip_named(ast: Ast, n: Seq<char>, upto: int) -> bool {
    exists|j: int| 0 <= j < upto && j < ast.skips@.len() && #[trigger] ast.skips@[j].name.value@ == n
}

pub open spec fn token_named(ast: Ast, n: Seq<char>, upto: int) -> bool {
    exists|j: int| 0 <= j < upto && j < ast.tokens@.len() && #[trigger] ast.tokens@[j].name.value@ == n
}

pub open spec fn rule_named(ast: Ast, n: Seq<char>, upto: int) -> bool {
    exists|j: int| 0 <= j < upto && j < ast.rules@.len() && #[trigger] ast.rules@[j].name.value@ == n
}

/// What `n` is defined as once the first `skips` skips, `tokens` tokens and
/// `rules` rules are defined: a later kind replaces an earlier one, and a
/// token or rule under a reserved builtin's name defines nothing.
pub open spec fn kind_after(ast: Ast, n: Seq<char>, skips: int, tokens: int, rules: int) -> Option<DefKind> {
    if !pest_reserved().contains(n) && rule_named(ast, n, rules) {
        Some(DefKind::Rule)
    } else if !pest_reserved().contains(n) && token_named(ast, n, tokens) {
        Some(DefKind::Token)
    } else if skip_named(ast, n, skips) {
        Some(DefKind::Skip)
    } else {
        None
    }
}

/// Whether `n` is emitted under another name once the first `tokens`
/// tokens and `rules` rules are defined.
pub open spec fn renamed_after(ast: Ast, n: Seq<char>, tokens: int, rules: int) -> bool {
    &&& pest_shadowable().contains(n)
    &&& !pest_reserved().contains(n)
    &&& (token_named(ast, n, tokens) || rule_named(ast, n, rules))
}

/// What `n` is defined as in the grammar.
pub open spec fn def_kind(ast: Ast, n: Seq<char>) -> Option<DefKind> {
    kind_after(ast, n, ast.skips@.len() as int, ast.tokens@.len() as int, ast.rules@.len() as int)
}

/// Whether a skip, token, rule alternative or recovery refers to something
/// that is not there.
pub open spec fn reference_unknown(ast: Ast, defined: Seq<(String, DefKind)>, has_table: bool) -> bool {
    ||| exists|i: int| 0 <= i < ast.skips@.len() && unknown_in(#[trigger] ast.skips@[i].body, defined, has_table)
    ||| exists|i: int| 0 <= i < ast.tokens@.len() && unknown_in(#[trigger] ast.tokens@[i].body, defined, has_table)
    ||| exists|i: int, a: int|
        0 <= i < ast.rules@.len() && 0 <= a < ast.rules@[i].alternatives@.len() && unknown_in(
            #[trigger] ast.rules@[i].alternatives@[a].body,
            defined,
            has_table,
        )
    ||| exists|i: int| 0 <= i < ast.recovers@.len() && unknown_in(#[trigger] ast.recovers@[i].sync, defined, has_table)
    ||| exists|i: int|
        0 <= i < ast.recovers@.len() && !(lookup(defined, #[trigger] ast.recovers@[i].rule.value@) is Some || (
        has_table && ast.recovers@[i].rule.value@ == "expr"@))
}

/// Whether a token or rule takes the name of a reserved builtin.
pub open spec fn redefines_reserved(ast: Ast) -> bool {
    ||| exists|i: int| 0 <= i < ast.tokens@.len() && pest_reserved().contains(#[trigger] ast.tokens@[i].name.value@)
    ||| exists|i: int| 0 <= i < ast.rules@.len() && pest_reserved().contains(#[trigger] ast.rules@[i].name.value@)
}

/// Whether the boundary of guarded token `t` is read without a warning: a
/// `boundary` gives it, or the token is defined and (in each definition of
/// that name) has a repeated part to read it from.
pub open spec fn guard_exact(ast: Ast, t: Seq<char>) -> bool {
    ||| boundary_named(ast, t)
    ||| token_named(ast, t, ast.tokens@.len() as int) && forall|j: int|
        0 <= j < ast.tokens@.len() && #[trigger] ast.tokens@[j].name.value@ == t ==> repeated(ast.tokens@[j].body).len() > 0
}

/// Whether every `reserved from` and `guard from` token's boundary is read
/// without a warning.
pub open spec fn guards_exact(ast: Ast) -> bool {
    &&& forall|i: int| 0 <= i < ast.reserved@.len() ==> guard_exact(ast, #[trigger] ast.reserved@[i].token.value@)
    &&& forall|i: int| 0 <= i < ast.guards@.len() ==> guard_exact(ast, #[trigger] ast.guards@[i].token.value@)
}

/// Each fragment of `v` under the name it is emitted as.
pub open spec fn emit_all(defined: Seq<(String, DefKind)>, renamed: Seq<(String, String)>, v: Seq<Seq<char>>) -> Seq<Seq<char>> {
    v.map_values(|p: Seq<char>| emitted_part(defined, renamed, p))
}

proof fn lemma_lookup_mapped(
    a: Seq<(String, Vec<String>)>,
    b: Seq<(String, Vec<String>)>,
    d: Seq<(String, DefKind)>,
    rn: Seq<(String, String)>,
    t: Seq<char>,
)
    requires
        a.len() == b.len(),
        forall|j: int| 0 <= j < a.len() ==> #[trigger] b[j].0@ == a[j].0@ && strs(b[j].1@) == emit_all(d, rn, strs(a[j].1@)),
    ensures
        (lookup(b, t) is Some) == (lookup(a, t) is Some),
        lookup(b, t) matches Some(v) ==> strs(v@) == emit_all(d, rn, strs(lookup(a, t)->0@)),
    decreases a.len(),
{
    if a.len() > 0 {
        assert(b[0].0@ == a[0].0@);
        assert forall|j: int| 0 <= j < a.drop_first().len() implies #[trigger] b.drop_first()[j].0@ == a.drop_first()[j].0@
            && strs(b.drop_first()[j].1@) == emit_all(d, rn, strs(a.drop_first()[j].1@)) by {
            assert(b.drop_first()[j] == b[j + 1]);
            assert(a.drop_first()[j] == a[j + 1]);
        }
        lemma_lookup_mapped(a.drop_first(), b.drop_first(), d, rn, t);
    }
}

pub open spec fn strs(v: Seq<String>) -> Seq<Seq<char>> {
    v.map_values(|s: String| s@)
}

/// The names of the tokens declared `case-insensitive`, in order.
pub open spec fn case_insensitive_names(tokens: Seq<crate::syntax::ast::TokenDef>) -> Seq<Seq<char>>
    decreases tokens.len(),
{
    if tokens.len() == 0 {
        Seq::empty()
    } else if tokens.last().case_insensitive {
        case_insensitive_names(tokens.drop_last()).push(tokens.last().name.value@)
    } else {
        case_insensitive_names(tokens.drop_last())
    }
}

/// What `resolve` promises of the resolution it returns for `ast`.
pub open spec fn resolved_from(ast: Ast, res: Resolution) -> bool {
    &&& forall|n: Seq<char>| #[trigger] lookup(res.defined@, n) == def_kind(ast, n)
    &&& forall|n: Seq<char>|
        (#[trigger] lookup(res.renamed@, n) is Some) == renamed_after(ast, n, ast.tokens@.len() as int, ast.rules@.len() as int)
    &&& forall|n: Seq<char>| #[trigger] lookup(res.renamed@, n) matches Some(c) ==> underscored(n, c@, res.defined@)
}

/// Whether `n` begins with `nh_`, the prefix of generated rules.
pub open spec fn generated_prefix(n: Seq<char>) -> bool {
    n.len() >= 3 && n.take(3) == "nh_"@
}

proof fn lemma_shadowable_shape(x: Seq<char>)
    requires
        pest_shadowable().contains(x),
    ensures
        x.len() >= 5,
        x.last() != '_',
        x[0] != 'n',
{
    reveal_strlit("ASCII");
    reveal_strlit("ASCII_DIGIT");
    reveal_strlit("ASCII_NONZERO_DIGIT");
    reveal_strlit("ASCII_BIN_DIGIT");
    reveal_strlit("ASCII_OCT_DIGIT");
    reveal_strlit("ASCII_HEX_DIGIT");
    reveal_strlit("ASCII_ALPHA");
    reveal_strlit("ASCII_ALPHA_LOWER");
    reveal_strlit("ASCII_ALPHA_UPPER");
    reveal_strlit("ASCII_ALPHANUMERIC");
    reveal_strlit("LETTER");
    reveal_strlit("NUMBER");
    reveal_strlit("UPPERCASE_LETTER");
    reveal_strlit("LOWERCASE_LETTER");
    reveal_strlit("ALPHABETIC");
    reveal_strlit("DIGIT_PROPERTY");
    reveal_strlit("WHITE_SPACE");
    let i = choose|i: int| 0 <= i < pest_shadowable().len() && pest_shadowable()[i] == x;
}

proof fn lemma_renamed_not_generated(n: Seq<char>, c: Seq<char>, d: Seq<(String, DefKind)>)
    requires
        pest_shadowable().contains(n),
        underscored(n, c, d),
    ensures
        c.take(n.len() as int) == n,
        forall|j: int| n.len() <= j < c.len() ==> c[j] == '_',
        c[0] != 'n',
        c.len() > n.len(),
{
    lemma_shadowable_shape(n);
    let k = choose|k: nat|
        k >= 1 && c == n + crate::text::repeat_char('_', k) && forall|j: nat|
            1 <= j < k ==> lookup(d, n + #[trigger] crate::text::repeat_char('_', j)) is Some;
    assert(c.take(n.len() as int) =~= n);
    assert(c[0] == n[0]);
}

/// Two different names the grammar defines are emitted under different
/// pest names: a renamed builtin, a skip's `nh_skip_` name and a plain name
/// never meet, when no defined name begins with `nh_` and no name is
/// defined under the name a builtin was renamed to.
pub proof fn lemma_emitted_names_distinct(ast: Ast, res: Resolution, a: Seq<char>, b: Seq<char>)
    requires
        resolved_from(ast, res),
        a != b,
        lookup(res.defined@, a) is Some,
        lookup(res.defined@, b) is Some,
        !generated_prefix(a),
        !generated_prefix(b),
        forall|n: Seq<char>| #[trigger] lookup(res.renamed@, n) matches Some(c) ==> lookup(res.defined@, c@) is None,
    ensures
        crate::lower::pest_name_spec(res, a) != crate::lower::pest_name_spec(res, b),
{
    reveal_strlit("nh_skip_");
    reveal_strlit("nh_");
    let pa = crate::lower::pest_name_spec(res, a);
    let pb = crate::lower::pest_name_spec(res, b);
    let ra = lookup(res.renamed@, a);
    let rb = lookup(res.renamed@, b);
    if ra is Some {
        assert(renamed_after(ast, a, ast.tokens@.len() as int, ast.rules@.len() as int));
        lemma_renamed_not_generated(a, ra->0@, res.defined@);
    }
    if rb is Some {
        assert(renamed_after(ast, b, ast.tokens@.len() as int, ast.rules@.len() as int));
        lemma_renamed_not_generated(b, rb->0@, res.defined@);
    }
    if pa == pb {
        if ra is Some && rb is Some {
            let ca = ra->0@;
            let cb = rb->0@;
            lemma_shadowable_shape(a);
            lemma_shadowable_shape(b);
            if a.len() == b.len() {
                assert(a == ca.take(a.len() as int));
                assert(b == cb.take(b.len() as int));
            } else if a.len() < b.len() {
                assert(b == cb.take(b.len() as int));
                assert(b[b.len() - 1] == ca[b.len() - 1]);
            } else {
                assert(a == ca.take(a.len() as int));
                assert(a[a.len() - 1] == cb[a.len() - 1]);
            }
        } else if ra is Some {
            let ca = ra->0@;
            if lookup(res.defined@, b) == Some(DefKind::Skip) {
                assert(pb[0] == 'n');
            } else {
                assert(pb == b);
            }
        } else if rb is Some {
            let cb = rb->0@;
            if lookup(res.defined@, a) == Some(DefKind::Skip) {
                assert(pa[0] == 'n');
            } else {
                assert(pa == a);
            }
        } else {
            let sa = lookup(res.defined@, a) == Some(DefKind::Skip);
            let sb = lookup(res.defined@, b) == Some(DefKind::Skip);
            if sa && sb {
                assert(a =~= pa.skip(8));
                assert(b =~= pb.skip(8));
            } else if sa {
                assert(pb == b);
                assert(b.take(3) =~= pa.take(3));
                assert(pa.take(3) =~= "nh_"@);
            } else if sb {
                assert(pa == a);
                assert(a.take(3) =~= pb.take(3));
                assert(pb.take(3) =~= "nh_"@);
            } else {
                assert(pa == a);
                assert(pb == b);
            }
        }
    }
}

/// Checks every reference in the grammar and derives continuation classes.
///
/// Each name resolves to the kind of its last definition (skips, then
/// tokens, then rules), a token or rule under a reserved builtin's name
/// defining nothing; those under a shadowable builtin's name are emitted
/// with the fewest underscores appended that no name defined before them
/// takes. When a table is present, `expr` is a legal reference though no
/// rule defines it. Redefining a reserved builtin, a reference to nothing, a
/// recovery for an unknown rule, and a guard on a token that has neither a
/// definition nor a `boundary` are each reported as an error (an unknown
/// reference once per occurrence, as ``undefined reference `x` ``); a grammar with
/// none of these, whose guarded tokens each have a `boundary` or a repeated
/// part, gets no diagnostic at all. Each guarded token with a class to read
/// gets its continuation fragments, under their emitted names. The tokens
/// declared `case-insensitive` are listed in order.
#[verifier::spinoff_prover]
#[verifier::rlimit(40)]
pub fn resolve(ast: &Ast, has_operator_table: bool, diagnostics: &mut Vec<Diagnostic>) -> (res: Resolution)
    ensures
        keeps(old(diagnostics)@, final(diagnostics)@),
        forall|n: Seq<char>| #[trigger] lookup(res.defined@, n) == def_kind(*ast, n),
        forall|n: Seq<char>|
            (#[trigger] lookup(res.renamed@, n) is Some) == renamed_after(
                *ast,
                n,
                ast.tokens@.len() as int,
                ast.rules@.len() as int,
            ),
        forall|n: Seq<char>| #[trigger] lookup(res.renamed@, n) matches Some(c) ==> underscored(n, c@, res.defined@),
        forall|i: int|
            0 <= i < ast.rules@.len() && !pest_reserved().contains(#[trigger] ast.rules@[i].name.value@)
                ==> lookup(res.defined@, ast.rules@[i].name.value@) == Some(DefKind::Rule),
        reference_unknown(*ast, res.defined@, has_operator_table) ==> error_after(
            final(diagnostics)@,
            old(diagnostics)@.len() as int,
        ),
        guard_unknown(*ast) ==> error_after(final(diagnostics)@, old(diagnostics)@.len() as int),
        strs(res.case_insensitive_tokens@) == case_insensitive_names(ast.tokens@),
        resolved_from(*ast, res),
        checked_upto(
            *ast,
            res.defined@,
            has_operator_table,
            final(diagnostics)@,
            old(diagnostics)@.len() as int,
            ast.skips@.len() as int,
            ast.tokens@.len() as int,
            ast.rules@.len() as int,
            0,
            ast.recovers@.len() as int,
        ),
        !redefines_reserved(*ast) && !reference_unknown(*ast, res.defined@, has_operator_table) && guards_exact(*ast)
            ==> final(diagnostics)@ == old(diagnostics)@,
        redefines_reserved(*ast) ==> error_after(final(diagnostics)@, old(diagnostics)@.len() as int),
        forall|t: Seq<char>|
            (#[trigger] lookup(res.continuations@, t) is Some) == (has_class(*ast, t) && guarded_upto(
                *ast,
                t,
                ast.reserved@.len() as int,
                ast.guards@.len() as int,
            )),
        forall|t: Seq<char>| #[trigger] lookup(res.continuations@, t) matches Some(v) ==> exists|w: Seq<Seq<char>>|
            derived_class(*ast, t, w) && strs(v@) == emit_all(res.defined@, res.renamed@, w),
{
    let ghost start = diagnostics@;
    proof { assert(start.take(start.len() as int) =~= start); }
    let mut defined: Vec<(String, DefKind)> = Vec::new();
    let mut renamed: Vec<(String, String)> = Vec::new();

    let mut i: usize = 0;
    while i < ast.skips.len()
        invariant
            i <= ast.skips@.len(),
            keeps(start, diagnostics@),
            !redefines_reserved(*ast) ==> diagnostics@ == start,
            forall|n: Seq<char>| #[trigger] lookup(defined@, n) == kind_after(*ast, n, i as int, 0, 0),
            renamed@.len() == 0,
        decreases ast.skips@.len() - i,
    {
        let ghost before = diagnostics@;
        let ghost before_defined = defined@;
        define(&ast.skips[i].name, DefKind::Skip, &mut defined, &mut renamed, diagnostics);
        proof {
            lemma_keeps_trans(start, before, diagnostics@);
            let nm = ast.skips@[i as int].name.value@;
            assert forall|n: Seq<char>| #[trigger] lookup(defined@, n) == kind_after(*ast, n, i + 1, 0, 0) by {
                if n == nm {
                    assert(skip_named(*ast, n, i + 1));
                } else {
                    assert(lookup(defined@, n) == lookup(before_defined, n));
                    assert(skip_named(*ast, n, i + 1) == skip_named(*ast, n, i as int));
                }
            }
        }
        i = i + 1;
    }
    let mut i: usize = 0;
    while i < ast.tokens.len()
        invariant
            i <= ast.tokens@.len(),
            keeps(start, diagnostics@),
            !redefines_reserved(*ast) ==> diagnostics@ == start,
            (exists|j: int| 0 <= j < i && pest_reserved().contains(#[trigger] ast.tokens@[j].name.value@))
                ==> error_after(diagnostics@, start.len() as int),
            forall|n: Seq<char>|
                #[trigger] lookup(defined@, n) == kind_after(*ast, n, ast.skips@.len() as int, i as int, 0),
            forall|n: Seq<char>| (#[trigger] lookup(renamed@, n) is Some) == renamed_after(*ast, n, i as int, 0),
            forall|n: Seq<char>| #[trigger] lookup(renamed@, n) matches Some(c) ==> underscored(n, c@, defined@),
        decreases ast.tokens@.len() - i,
    {
        let ghost before = diagnostics@;
        let ghost before_defined = defined@;
        let ghost before_renamed = renamed@;
        define(&ast.tokens[i].name, DefKind::Token, &mut defined, &mut renamed, diagnostics);
        proof {
            lemma_keeps_trans(start, before, diagnostics@);
            if error_after(before, start.len() as int) {
                lemma_error_kept(before, diagnostics@, start.len() as int);
            }
            let nm = ast.tokens@[i as int].name.value@;
            assert forall|n: Seq<char>|
                #[trigger] lookup(defined@, n) == kind_after(*ast, n, ast.skips@.len() as int, i + 1, 0) by {
                if n == nm {
                    assert(token_named(*ast, n, i + 1));
                } else {
                    assert(lookup(defined@, n) == lookup(before_defined, n));
                    assert(token_named(*ast, n, i + 1) == token_named(*ast, n, i as int));
                }
            }
            assert forall|n: Seq<char>|
                (#[trigger] lookup(renamed@, n) is Some) == renamed_after(*ast, n, i + 1, 0) && (lookup(
                    renamed@,
                    n,
                ) matches Some(c) ==> underscored(n, c@, defined@)) by {
                if n == nm {
                    assert(token_named(*ast, n, i + 1));
                    if !renames(DefKind::Token, nm) {
                        assert(lookup(renamed@, n) == lookup(before_renamed, n));
                    }
                } else {
                    assert(lookup(renamed@, n) == lookup(before_renamed, n));
                    assert(token_named(*ast, n, i + 1) == token_named(*ast, n, i as int));
                }
                if lookup(renamed@, n) is Some {
                    lemma_underscored_grows(n, lookup(renamed@, n)->0@, before_defined, defined@);
                }
            }
        }
        i = i + 1;
    }
    let mut i: usize = 0;
    while i < ast.rules.len()
        invariant
            i <= ast.rules@.len(),
            keeps(start, diagnostics@),
            !redefines_reserved(*ast) ==> diagnostics@ == start,
            ((exists|j: int| 0 <= j < ast.tokens@.len() && pest_reserved().contains(#[trigger] ast.tokens@[j].name.value@))
                || exists|j: int| 0 <= j < i && pest_reserved().contains(#[trigger] ast.rules@[j].name.value@))
                ==> error_after(diagnostics@, start.len() as int),
            forall|n: Seq<char>|
                #[trigger] lookup(defined@, n) == kind_after(
                    *ast,
                    n,
                    ast.skips@.len() as int,
                    ast.tokens@.len() as int,
                    i as int,
                ),
            forall|n: Seq<char>|
                (#[trigger] lookup(renamed@, n) is Some) == renamed_after(*ast, n, ast.tokens@.len() as int, i as int),
            forall|n: Seq<char>| #[trigger] lookup(renamed@, n) matches Some(c) ==> underscored(n, c@, defined@),
        decreases ast.rules@.len() - i,
    {
        let ghost before = diagnostics@;
        let ghost before_defined = defined@;
        let ghost before_renamed = renamed@;
        define(&ast.rules[i].name, DefKind::Rule, &mut defined, &mut renamed, diagnostics);
        proof {
            lemma_keeps_trans(start, before, diagnostics@);
            if error_after(before, start.len() as int) {
                lemma_error_kept(before, diagnostics@, start.len() as int);
            }
            let nm = ast.rules@[i as int].name.value@;
            assert forall|n: Seq<char>|
                #[trigger] lookup(defined@, n) == kind_after(
                    *ast,
                    n,
                    ast.skips@.len() as int,
                    ast.tokens@.len() as int,
                    i + 1,
                ) by {
                if n == nm {
                    assert(rule_named(*ast, n, i + 1));
                } else {
                    assert(lookup(defined@, n) == lookup(before_defined, n));
                    assert(rule_named(*ast, n, i + 1) == rule_named(*ast, n, i as int));
                }
            }
            assert forall|n: Seq<char>|
                (#[trigger] lookup(renamed@, n) is Some) == renamed_after(
                    *ast,
                    n,
                    ast.tokens@.len() as int,
                    i + 1,
                ) && (lookup(renamed@, n) matches Some(c) ==> underscored(n, c@, defined@)) by {
                if n == nm {
                    assert(rule_named(*ast, n, i + 1));
                    if !renames(DefKind::Rule, nm) {
                        assert(lookup(renamed@, n) == lookup(before_renamed, n));
                    }
                } else {
                    assert(lookup(renamed@, n) == lookup(before_renamed, n));
                    assert(rule_named(*ast, n, i + 1) == rule_named(*ast, n, i as int));
                }
                if lookup(renamed@, n) is Some {
                    lemma_underscored_grows(n, lookup(renamed@, n)->0@, before_defined, defined@);
                }
            }
        }
        i = i + 1;
    }
    proof {
        assert forall|k: int|
            0 <= k < ast.rules@.len() && !pest_reserved().contains(#[trigger] ast.rules@[k].name.value@)
                implies lookup(defined@, ast.rules@[k].name.value@) == Some(DefKind::Rule) by {
            assert(rule_named(*ast, ast.rules@[k].name.value@, ast.rules@.len() as int));
        }
    }

    let ghost d = defined@;
    let ghost h = has_operator_table;
    let ghost clean = !redefines_reserved(*ast) && !reference_unknown(*ast, d, h);
    let ghost from = start.len() as int;
    let mut i: usize = 0;
    while i < ast.skips.len()
        invariant
            i <= ast.skips@.len(),
            d == defined@,
            h == has_operator_table,
            from == start.len(),
            keeps(start, diagnostics@),
            checked_upto(*ast, d, h, diagnostics@, from, i as int, 0, 0, 0, 0),
            clean == (!redefines_reserved(*ast) && !reference_unknown(*ast, d, h)),
            clean ==> diagnostics@ == start,
            redefines_reserved(*ast) ==> error_after(diagnostics@, start.len() as int),
            (exists|j: int| 0 <= j < i && unknown_in(#[trigger] ast.skips@[j].body, d, h)) ==> error_after(
                diagnostics@,
                from,
            ),
        decreases ast.skips@.len() - i,
    {
        let ghost before = diagnostics@;
        proof {
            if clean {
                assert(!unknown_in(ast.skips@[i as int].body, d, h));
            }
        }
        check_refs(&ast.skips[i].body, &defined, has_operator_table, diagnostics);
        proof {
            lemma_checked_keeps(*ast, d, h, before, diagnostics@, from, i as int, 0, 0, 0, 0);
            lemma_refs_reported_new(before, diagnostics@, from, unknown_refs(ast.skips@[i as int].body, d, h));
            assert(checked_upto(*ast, d, h, diagnostics@, from, i + 1, 0, 0, 0, 0));
            lemma_keeps_trans(start, before, diagnostics@);
            if error_after(before, from) {
                lemma_error_kept(before, diagnostics@, from);
            }
        }
        i = i + 1;
    }
    let ghost skips_bad = exists|j: int| 0 <= j < ast.skips@.len() && unknown_in(#[trigger] ast.skips@[j].body, d, h);
    let mut i: usize = 0;
    while i < ast.tokens.len()
        invariant
            i <= ast.tokens@.len(),
            d == defined@,
            h == has_operator_table,
            from == start.len(),
            keeps(start, diagnostics@),
            checked_upto(*ast, d, h, diagnostics@, from, ast.skips@.len() as int, i as int, 0, 0, 0),
            clean == (!redefines_reserved(*ast) && !reference_unknown(*ast, d, h)),
            clean ==> diagnostics@ == start,
            redefines_reserved(*ast) ==> error_after(diagnostics@, start.len() as int),
            skips_bad == exists|j: int| 0 <= j < ast.skips@.len() && unknown_in(#[trigger] ast.skips@[j].body, d, h),
            (skips_bad || exists|j: int| 0 <= j < i && unknown_in(#[trigger] ast.tokens@[j].body, d, h))
                ==> error_after(diagnostics@, from),
        decreases ast.tokens@.len() - i,
    {
        let ghost before = diagnostics@;
        proof {
            if clean {
                assert(!unknown_in(ast.tokens@[i as int].body, d, h));
            }
        }
        check_refs(&ast.tokens[i].body, &defined, has_operator_table, diagnostics);
        proof {
            lemma_checked_keeps(*ast, d, h, before, diagnostics@, from, ast.skips@.len() as int, i as int, 0, 0, 0);
            lemma_refs_reported_new(before, diagnostics@, from, unknown_refs(ast.tokens@[i as int].body, d, h));
            assert(checked_upto(*ast, d, h, diagnostics@, from, ast.skips@.len() as int, i + 1, 0, 0, 0));
            lemma_keeps_trans(start, before, diagnostics@);
            if error_after(before, from) {
                lemma_error_kept(before, diagnostics@, from);
            }
        }
        i = i + 1;
    }
    let ghost earlier_bad = skips_bad || exists|j: int|
        0 <= j < ast.tokens@.len() && unknown_in(#[trigger] ast.tokens@[j].body, d, h);
    let mut i: usize = 0;
    while i < ast.rules.len()
        invariant
            i <= ast.rules@.len(),
            d == defined@,
            h == has_operator_table,
            from == start.len(),
            keeps(start, diagnostics@),
            checked_upto(*ast, d, h, diagnostics@, from, ast.skips@.len() as int, ast.tokens@.len() as int, i as int, 0, 0),
            clean == (!redefines_reserved(*ast) && !reference_unknown(*ast, d, h)),
            clean ==> diagnostics@ == start,
            redefines_reserved(*ast) ==> error_after(diagnostics@, start.len() as int),
            (earlier_bad || exists|j: int, b: int|
                0 <= j < i && 0 <= b < ast.rules@[j].alternatives@.len() && unknown_in(
                    #[trigger] ast.rules@[j].alternatives@[b].body,
                    d,
                    h,
                )) ==> error_after(diagnostics@, from),
        decreases ast.rules@.len() - i,
    {
        let r = &ast.rules[i];
        let mut a: usize = 0;
        while a < r.alternatives.len()
            invariant
                i < ast.rules@.len(),
                *r == ast.rules@[i as int],
                a <= r.alternatives@.len(),
                d == defined@,
                h == has_operator_table,
                from == start.len(),
                keeps(start, diagnostics@),
                checked_upto(*ast, d, h, diagnostics@, from, ast.skips@.len() as int, ast.tokens@.len() as int, i as int, a as int, 0),
                clean == (!redefines_reserved(*ast) && !reference_unknown(*ast, d, h)),
                clean ==> diagnostics@ == start,
                redefines_reserved(*ast) ==> error_after(diagnostics@, start.len() as int),
                (earlier_bad || (exists|j: int, b: int|
                    0 <= j < i && 0 <= b < ast.rules@[j].alternatives@.len() && unknown_in(
                        #[trigger] ast.rules@[j].alternatives@[b].body,
                        d,
                        h,
                    )) || exists|b: int| 0 <= b < a && unknown_in(#[trigger] r.alternatives@[b].body, d, h))
                    ==> error_after(diagnostics@, from),
            decreases r.alternatives@.len() - a,
        {
            let ghost before = diagnostics@;
            proof {
                if clean {
                    assert(!unknown_in(ast.rules@[i as int].alternatives@[a as int].body, d, h));
                }
            }
            check_refs(&r.alternatives[a].body, &defined, has_operator_table, diagnostics);
            proof {
                lemma_checked_keeps(*ast, d, h, before, diagnostics@, from, ast.skips@.len() as int, ast.tokens@.len() as int, i as int, a as int, 0);
                lemma_refs_reported_new(before, diagnostics@, from, unknown_refs(ast.rules@[i as int].alternatives@[a as int].body, d, h));
                assert(checked_upto(*ast, d, h, diagnostics@, from, ast.skips@.len() as int, ast.tokens@.len() as int, i as int, a + 1, 0));
                lemma_keeps_trans(start, before, diagnostics@);
                if error_after(before, from) {
                    lemma_error_kept(before, diagnostics@, from);
                }
            }
            a = a + 1;
        }
        proof {
            if exists|j: int, b: int|
                0 <= j < i + 1 && 0 <= b < ast.rules@[j].alternatives@.len() && unknown_in(
                    #[trigger] ast.rules@[j].alternatives@[b].body,
                    d,
                    h,
                ) {
                let (j, b) = choose|j: int, b: int|
                    0 <= j < i + 1 && 0 <= b < ast.rules@[j].alternatives@.len() && unknown_in(
                        #[trigger] ast.rules@[j].alternatives@[b].body,
                        d,
                        h,
                    );
                if j == i {
                    assert(unknown_in(r.alternatives@[b].body, d, h));
                }
            }
        }
        i = i + 1;
    }
    let ghost before_recovers = earlier_bad || exists|j: int, b: int|
        0 <= j < ast.rules@.len() && 0 <= b < ast.rules@[j].alternatives@.len() && unknown_in(
            #[trigger] ast.rules@[j].alternatives@[b].body,
            d,
            h,
        );
    let mut i: usize = 0;
    while i < ast.recovers.len()
        invariant
            i <= ast.recovers@.len(),
            d == defined@,
            h == has_operator_table,
            from == start.len(),
            keeps(start, diagnostics@),
            checked_upto(*ast, d, h, diagnostics@, from, ast.skips@.len() as int, ast.tokens@.len() as int, ast.rules@.len() as int, 0, i as int),
            clean == (!redefines_reserved(*ast) && !reference_unknown(*ast, d, h)),
            clean ==> diagnostics@ == start,
            redefines_reserved(*ast) ==> error_after(diagnostics@, start.len() as int),
            (before_recovers || (exists|j: int| 0 <= j < i && unknown_in(#[trigger] ast.recovers@[j].sync, d, h))
                || exists|j: int|
                0 <= j < i && !(lookup(d, #[trigger] ast.recovers@[j].rule.value@) is Some || (h
                    && ast.recovers@[j].rule.value@ == "expr"@))) ==> error_after(diagnostics@, from),
        decreases ast.recovers@.len() - i,
    {
        let rec = &ast.recovers[i];
        let ghost before = diagnostics@;
        proof {
            if clean {
                assert(!unknown_in(ast.recovers@[i as int].sync, d, h));
            }
        }
        check_refs(&rec.sync, &defined, has_operator_table, diagnostics);
        proof {
            lemma_checked_keeps(*ast, d, h, before, diagnostics@, from, ast.skips@.len() as int, ast.tokens@.len() as int, ast.rules@.len() as int, 0, i as int);
            lemma_refs_reported_new(before, diagnostics@, from, unknown_refs(ast.recovers@[i as int].sync, d, h));
            assert(checked_upto(*ast, d, h, diagnostics@, from, ast.skips@.len() as int, ast.tokens@.len() as int, ast.rules@.len() as int, 0, i + 1));
            lemma_keeps_trans(start, before, diagnostics@);
            if error_after(before, from) {
                lemma_error_kept(before, diagnostics@, from);
            }
            reveal_strlit("expr");
        }
        let n = rec.rule.value.as_str();
        let known = find_index(&defined, n).is_some() || (has_operator_table && str_eq(n, "expr"));
        if !known {
            let ghost before = diagnostics@;
            diagnostics.push(
                Diagnostic::error(cat3("`recover` names unknown rule `", n, "`").as_str()).at(rec.rule.span),
            );
            proof {
                assert(diagnostics@.take(before.len() as int) =~= before);
                lemma_checked_keeps(*ast, d, h, before, diagnostics@, from, ast.skips@.len() as int, ast.tokens@.len() as int, ast.rules@.len() as int, 0, i + 1);
                lemma_keeps_trans(start, before, diagnostics@);
                if error_after(before, from) {
                    lemma_error_kept(before, diagnostics@, from);
                }
                assert(diagnostics@[before.len() as int].severity == Severity::Error);
            }
        }
        i = i + 1;
    }
    proof {
        assert(reference_unknown(*ast, d, h) ==> error_after(diagnostics@, from));
    }

    // Continuation classes for every token with reserved or guarded words.
    let mut continuations: Vec<(String, Vec<String>)> = Vec::new();
    let mut i: usize = 0;
    while i < ast.reserved.len()
        invariant
            from == start.len(),
            keeps(start, diagnostics@),
            checked_upto(*ast, d, h, diagnostics@, from, ast.skips@.len() as int, ast.tokens@.len() as int, ast.rules@.len() as int, 0, ast.recovers@.len() as int),
            clean == (!redefines_reserved(*ast) && !reference_unknown(*ast, d, h)),
            clean && guards_exact(*ast) ==> diagnostics@ == start,
            redefines_reserved(*ast) ==> error_after(diagnostics@, start.len() as int),
            reference_unknown(*ast, d, h) ==> error_after(diagnostics@, from),
            i <= ast.reserved@.len(),
            (exists|j: int|
                0 <= j < i && !boundary_named(*ast, #[trigger] ast.reserved@[j].token.value@) && !token_named(
                    *ast,
                    ast.reserved@[j].token.value@,
                    ast.tokens@.len() as int,
                )) ==> error_after(diagnostics@, from),
            forall|t: Seq<char>| #[trigger] lookup(continuations@, t) matches Some(v) ==> derived_class(*ast, t, strs(v@)),
            forall|t: Seq<char>|
                (#[trigger] lookup(continuations@, t) is Some) == (has_class(*ast, t) && guarded_upto(*ast, t, i as int, 0)),
        decreases ast.reserved@.len() - i,
    {
        let ghost before = diagnostics@;
        let ghost before_c = continuations@;
        derive_continuation(ast, &ast.reserved[i].token, "reserved from", &mut continuations, diagnostics);
        proof {
            lemma_checked_keeps(*ast, d, h, before, diagnostics@, from, ast.skips@.len() as int, ast.tokens@.len() as int, ast.rules@.len() as int, 0, ast.recovers@.len() as int);
            let tk = ast.reserved@[i as int].token.value@;
            assert forall|t: Seq<char>|
                ((#[trigger] lookup(continuations@, t) is Some) == (has_class(*ast, t) && guarded_upto(*ast, t, i + 1, 0)))
                    && (lookup(continuations@, t) matches Some(v) ==> derived_class(*ast, t, strs(v@))) by {
                if t == tk {
                    assert(guarded_upto(*ast, t, i + 1, 0));
                } else {
                    assert(lookup(continuations@, t) == lookup(before_c, t));
                    if guarded_upto(*ast, t, i + 1, 0) {
                        let j = choose|j: int| 0 <= j < i + 1 && j < ast.reserved@.len() && #[trigger] ast.reserved@[j].token.value@ == t;
                        assert(j != i);
                    }
                }
            }
            lemma_keeps_trans(start, before, diagnostics@);
            if error_after(before, from) {
                lemma_error_kept(before, diagnostics@, from);
            }
        }
        i = i + 1;
    }
    let mut i: usize = 0;
    while i < ast.guards.len()
        invariant
            from == start.len(),
            keeps(start, diagnostics@),
            checked_upto(*ast, d, h, diagnostics@, from, ast.skips@.len() as int, ast.tokens@.len() as int, ast.rules@.len() as int, 0, ast.recovers@.len() as int),
            clean == (!redefines_reserved(*ast) && !reference_unknown(*ast, d, h)),
            clean && guards_exact(*ast) ==> diagnostics@ == start,
            redefines_reserved(*ast) ==> error_after(diagnostics@, start.len() as int),
            reference_unknown(*ast, d, h) ==> error_after(diagnostics@, from),
            i <= ast.guards@.len(),
            (exists|j: int|
                0 <= j < ast.reserved@.len() && !boundary_named(*ast, #[trigger] ast.reserved@[j].token.value@)
                    && !token_named(*ast, ast.reserved@[j].token.value@, ast.tokens@.len() as int)) ==> error_after(
                diagnostics@,
                from,
            ),
            (exists|j: int|
                0 <= j < i && !boundary_named(*ast, #[trigger] ast.guards@[j].token.value@) && !token_named(
                    *ast,
                    ast.guards@[j].token.value@,
                    ast.tokens@.len() as int,
                )) ==> error_after(diagnostics@, from),
            forall|t: Seq<char>| #[trigger] lookup(continuations@, t) matches Some(v) ==> derived_class(*ast, t, strs(v@)),
            forall|t: Seq<char>|
                (#[trigger] lookup(continuations@, t) is Some) == (has_class(*ast, t) && guarded_upto(
                    *ast,
                    t,
                    ast.reserved@.len() as int,
                    i as int,
                )),
        decreases ast.guards@.len() - i,
    {
        let ghost before = diagnostics@;
        let ghost before_c = continuations@;
        derive_continuation(ast, &ast.guards[i].token, "guard from", &mut continuations, diagnostics);
        proof {
            lemma_checked_keeps(*ast, d, h, before, diagnostics@, from, ast.skips@.len() as int, ast.tokens@.len() as int, ast.rules@.len() as int, 0, ast.recovers@.len() as int);
            let tk = ast.guards@[i as int].token.value@;
            let rl = ast.reserved@.len() as int;
            assert forall|t: Seq<char>|
                ((#[trigger] lookup(continuations@, t) is Some) == (has_class(*ast, t) && guarded_upto(*ast, t, rl, i + 1)))
                    && (lookup(continuations@, t) matches Some(v) ==> derived_class(*ast, t, strs(v@))) by {
                if t == tk {
                    assert(guarded_upto(*ast, t, rl, i + 1));
                } else {
                    assert(lookup(continuations@, t) == lookup(before_c, t));
                    if guarded_upto(*ast, t, rl, i + 1) && !guarded_upto(*ast, t, rl, i as int) {
                        let j = choose|j: int| 0 <= j < i + 1 && j < ast.guards@.len() && #[trigger] ast.guards@[j].token.value@ == t;
                        assert(j != i);
                    }
                }
            }
            lemma_keeps_trans(start, before, diagnostics@);
            if error_after(before, from) {
                lemma_error_kept(before, diagnostics@, from);
            }
        }
        i = i + 1;
    }

    let mut case_insensitive_tokens: Vec<String> = Vec::new();
    let mut i: usize = 0;
    proof { assert(ast.tokens@.take(0) =~= Seq::<crate::syntax::ast::TokenDef>::empty()); }
    while i < ast.tokens.len()
        invariant
            i <= ast.tokens@.len(),
            strs(case_insensitive_tokens@) == case_insensitive_names(ast.tokens@.take(i as int)),
        decreases ast.tokens@.len() - i,
    {
        proof {
            assert(ast.tokens@.take(i + 1).drop_last() =~= ast.tokens@.take(i as int));
            assert(ast.tokens@.take(i + 1).last() == ast.tokens@[i as int]);
        }
        if ast.tokens[i].case_insensitive {
            case_insensitive_tokens.push(owned(ast.tokens[i].name.value.as_str()));
            proof {
                assert(strs(case_insensitive_tokens@) =~= case_insensitive_names(ast.tokens@.take(i as int)).push(
                    ast.tokens@[i as int].name.value@,
                ));
            }
        }
        i = i + 1;
    }
    proof { assert(ast.tokens@.take(ast.tokens@.len() as int) =~= ast.tokens@); }

    let mut res = Resolution { defined, continuations: Vec::new(), renamed, case_insensitive_tokens };

    // Continuation fragments are emitted verbatim, so references inside them
    // use the renamed form too.
    let mapped = map_continuations(&res, &continuations);
    let ghost dd = res.defined@;
    let ghost rn = res.renamed@;
    proof {
        assert forall|t: Seq<char>|
            ((#[trigger] lookup(mapped@, t) is Some) == (lookup(continuations@, t) is Some)) && (lookup(mapped@, t) matches Some(v)
                ==> exists|w: Seq<Seq<char>>| derived_class(*ast, t, w) && strs(v@) == emit_all(dd, rn, w)) by {
            lemma_lookup_mapped(continuations@, mapped@, dd, rn, t);
            if lookup(mapped@, t) is Some {
                let w = strs(lookup(continuations@, t)->0@);
                assert(derived_class(*ast, t, w));
            }
        }
    }
    res.continuations = mapped;
    res
}

/// Each continuation fragment under the name it is emitted as.
fn map_continuations(res: &Resolution, continuations: &Vec<(String, Vec<String>)>) -> (mapped: Vec<(String, Vec<String>)>)
    ensures
        mapped@.len() == continuations@.len(),
        forall|j: int|
            0 <= j < continuations@.len() ==> #[trigger] mapped@[j].0@ == continuations@[j].0@ && strs(mapped@[j].1@)
                == emit_all(res.defined@, res.renamed@, strs(continuations@[j].1@)),
{
    let mut mapped: Vec<(String, Vec<String>)> = Vec::new();
    let ghost dd = res.defined@;
    let ghost rn = res.renamed@;
    let mut i: usize = 0;
    while i < continuations.len()
        invariant
            i <= continuations@.len(),
            dd == res.defined@,
            rn == res.renamed@,
            mapped@.len() == i,
            forall|j: int|
                0 <= j < i ==> #[trigger] mapped@[j].0@ == continuations@[j].0@ && strs(mapped@[j].1@) == emit_all(
                    dd,
                    rn,
                    strs(continuations@[j].1@),
                ),
        decreases continuations@.len() - i,
    {
        let (token, parts) = (&continuations[i].0, &continuations[i].1);
        let mut out: Vec<String> = Vec::new();
        let mut k: usize = 0;
        while k < parts.len()
            invariant
                k <= parts@.len(),
                dd == res.defined@,
                rn == res.renamed@,
                strs(out@) == emit_all(dd, rn, strs(parts@.take(k as int))),
            decreases parts@.len() - k,
        {
            let p = parts[k].as_str();
            if res.kind(p).is_some() {
                out.push(res.pest_name(p));
            } else {
                out.push(owned(p));
            }
            proof {
                assert(strs(parts@.take(k + 1)) =~= strs(parts@.take(k as int)).push(parts@[k as int]@));
                assert(strs(out@) =~= emit_all(dd, rn, strs(parts@.take(k as int))).push(emitted_part(dd, rn, parts@[k as int]@)));
            }
            k = k + 1;
        }
        proof { assert(parts@.take(parts@.len() as int) =~= parts@); }
        mapped.push((owned(token.as_str()), out));
        proof {
            assert(mapped@[i as int].0@ == continuations@[i as int].0@);
        }
        i = i + 1;
    }
    mapped
}

proof fn lemma_keeps_trans(a: Seq<Diagnostic>, b: Seq<Diagnostic>, c: Seq<Diagnostic>)
    requires
        keeps(a, b),
        keeps(b, c),
    ensures
        keeps(a, c),
{
    assert(c.take(a.len() as int) =~= c.take(b.len() as int).take(a.len() as int));
}

pub(crate) proof fn lemma_lookup_update_other<V>(s: Seq<(String, V)>, i: int, e: (String, V), k: Seq<char>)
    requires
        0 <= i < s.len(),
        s[i].0@ == e.0@,
        k != e.0@,
    ensures
        lookup(s.update(i, e), k) == lookup(s, k),
    decreases s.len(),
{
    if s.len() > 0 && i > 0 {
        lemma_lookup_update_other(s.drop_first(), i - 1, e, k);
        assert(s.update(i, e).drop_first() =~= s.drop_first().update(i - 1, e));
    } else if s.len() > 0 {
        assert(s.update(i, e).drop_first() =~= s.drop_first());
    }
}

pub(crate) proof fn lemma_lookup_push_other<V>(s: Seq<(String, V)>, e: (String, V), k: Seq<char>)
    requires
        k != e.0@,
    ensures
        lookup(s.push(e), k) == lookup(s, k),
    decreases s.len(),
{
    if s.len() > 0 {
        lemma_lookup_push_other(s.drop_first(), e, k);
        assert(s.push(e).drop_first() =~= s.drop_first().push(e));
    } else {
        assert(s.push(e)[0] == e);
        assert(s.push(e).drop_first() =~= Seq::<(String, V)>::empty());
        assert(lookup(s.push(e).drop_first(), k) is None);
    }
}

} // verus!
