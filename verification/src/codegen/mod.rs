//! Generating Rust from a lowered grammar: handler parameters, the operator
//! driver and trait, `Operators` against a VM, assignable places, and the
//! check that a hand-written handler still matches its grammar.

pub mod params;
pub mod drift;
pub mod operators;
pub mod vm;
pub mod place;
pub mod ast;
pub mod diagnostics;
pub mod run;
pub mod stubs;
pub mod views;

use vstd::prelude::*;
use crate::text::{cat2, chars_of, owned, push_char, seq_less, str_eq, str_less, upper_char, lemma_seq_less_asym, lemma_seq_less_total, lemma_seq_less_trans};

verus! {

/// What every generated file starts with.
pub const HEADER: &'static str = "// Generated by NailHammer. DO NOT EDIT.\n";

/// Whether `s` is a word Rust reserves, so that a binding named after it
/// needs the raw form `r#word`.
pub open spec fn is_reserved_word(s: Seq<char>) -> bool {
    ||| s == "as"@ ||| s == "break"@ ||| s == "const"@ ||| s == "continue"@
    ||| s == "else"@ ||| s == "enum"@ ||| s == "extern"@ ||| s == "false"@
    ||| s == "fn"@ ||| s == "for"@ ||| s == "if"@ ||| s == "impl"@
    ||| s == "in"@ ||| s == "let"@ ||| s == "loop"@ ||| s == "match"@
    ||| s == "mod"@ ||| s == "move"@ ||| s == "mut"@ ||| s == "pub"@
    ||| s == "ref"@ ||| s == "return"@ ||| s == "static"@ ||| s == "struct"@
    ||| s == "trait"@ ||| s == "true"@ ||| s == "type"@ ||| s == "unsafe"@
    ||| s == "use"@ ||| s == "where"@ ||| s == "while"@ ||| s == "async"@
    ||| s == "await"@ ||| s == "dyn"@ ||| s == "abstract"@ ||| s == "become"@
    ||| s == "box"@ ||| s == "do"@ ||| s == "final"@ ||| s == "macro"@
    ||| s == "override"@ ||| s == "priv"@ ||| s == "typeof"@ ||| s == "unsized"@
    ||| s == "virtual"@ ||| s == "yield"@ ||| s == "try"@ ||| s == "gen"@
}

/// Whether `s` is a path keyword, which has no raw form.
pub open spec fn is_path_word(s: Seq<char>) -> bool {
    s == "self"@ || s == "Self"@ || s == "super"@ || s == "crate"@
}

/// `name` as a Rust identifier: a reserved word gets the raw prefix `r#`, a
/// path keyword (which cannot be raw) a trailing `_`, anything else is kept.
pub open spec fn ident_spec(name: Seq<char>) -> Seq<char> {
    if is_path_word(name) {
        name + "_"@
    } else if is_reserved_word(name) {
        "r#"@ + name
    } else {
        name
    }
}

fn reserved_word(s: &str) -> (b: bool)
    ensures
        b == is_reserved_word(s@),
{
    str_eq(s, "as") || str_eq(s, "break") || str_eq(s, "const") || str_eq(s, "continue")
        || str_eq(s, "else") || str_eq(s, "enum") || str_eq(s, "extern") || str_eq(s, "false")
        || str_eq(s, "fn") || str_eq(s, "for") || str_eq(s, "if") || str_eq(s, "impl")
        || str_eq(s, "in") || str_eq(s, "let") || str_eq(s, "loop") || str_eq(s, "match")
        || str_eq(s, "mod") || str_eq(s, "move") || str_eq(s, "mut") || str_eq(s, "pub")
        || str_eq(s, "ref") || str_eq(s, "return") || str_eq(s, "static") || str_eq(s, "struct")
        || str_eq(s, "trait") || str_eq(s, "true") || str_eq(s, "type") || str_eq(s, "unsafe")
        || str_eq(s, "use") || str_eq(s, "where") || str_eq(s, "while") || str_eq(s, "async")
        || str_eq(s, "await") || str_eq(s, "dyn") || str_eq(s, "abstract") || str_eq(s, "become")
        || str_eq(s, "box") || str_eq(s, "do") || str_eq(s, "final") || str_eq(s, "macro")
        || str_eq(s, "override") || str_eq(s, "priv") || str_eq(s, "typeof") || str_eq(s, "unsized")
        || str_eq(s, "virtual") || str_eq(s, "yield") || str_eq(s, "try") || str_eq(s, "gen")
}

/// `name` as a Rust identifier, so that a binding called `type` or `match`
/// still produces code that compiles.
pub fn ident(name: &str) -> (s: String)
    ensures
        s@ == ident_spec(name@),
{
    if str_eq(name, "self") || str_eq(name, "Self") || str_eq(name, "super") || str_eq(name, "crate") {
        cat2(name, "_")
    } else if reserved_word(name) {
        cat2("r#", name)
    } else {
        owned(name)
    }
}

/// `snake_case` to `PascalCase`: each `_` is dropped and the character after
/// it upper-cased, as is the first; everything else is kept.
pub open spec fn pascal(s: Seq<char>, cap: bool) -> Seq<char>
    decreases s.len(),
{
    if s.len() == 0 {
        Seq::empty()
    } else if s[0] == '_' {
        pascal(s.skip(1), true)
    } else {
        seq![if cap { upper_char(s[0]) } else { s[0] }] + pascal(s.skip(1), false)
    }
}

pub open spec fn pascal_name_spec(name: Seq<char>) -> Seq<char> {
    pascal(name, true)
}

/// The Rust type name for a rule or label: `primary_var` becomes
/// `PrimaryVar`, `eq_eq` becomes `EqEq`.
pub fn pascal_name(name: &str) -> (s: String)
    ensures
        s@ == pascal_name_spec(name@),
{
    let v = crate::text::chars_of(name);
    let mut out = String::new();
    let mut cap = true;
    let mut i: usize = 0;
    proof {
        assert(v@.skip(0) =~= v@);
        assert(out@ + pascal(v@, true) =~= pascal(v@, true));
    }
    while i < v.len()
        invariant
            v@ == name@,
            i <= v@.len(),
            out@ + pascal(v@.skip(i as int), cap) == pascal(v@, true),
        decreases v@.len() - i,
    {
        let c = v[i];
        proof {
            assert(v@.skip(i as int)[0] == c);
            assert(v@.skip(i as int).skip(1) =~= v@.skip(i + 1));
        }
        if c == '_' {
            cap = true;
        } else {
            let d = if cap { crate::text::to_upper_char(c) } else { c };
            proof {
                let rest = pascal(v@.skip(i + 1), false);
                assert(out@.push(d) + rest =~= out@ + (seq![d] + rest));
            }
            push_char(&mut out, d);
            cap = false;
        }
        i = i + 1;
    }
    proof {
        assert(v@.skip(v@.len() as int) =~= Seq::<char>::empty());
        assert(out@ + Seq::<char>::empty() =~= out@);
    }
    out
}


/// Whether the strings of `v` strictly increase.
pub open spec fn strictly_sorted(v: Seq<String>) -> bool {
    forall|a: int, b: int| 0 <= a < b < v.len() ==> seq_less(v[a]@, v[b]@)
}

/// Whether `w` is one of the strings of `v`.
pub open spec fn among(v: Seq<String>, w: Seq<char>) -> bool {
    exists|k: int| 0 <= k < v.len() && (#[trigger] v[k])@ == w
}

/// The strings of `keys`, each once, in string order.
pub fn sorted_distinct(keys: &Vec<String>) -> (r: Vec<String>)
    ensures
        strictly_sorted(r@),
        forall|w: Seq<char>| among(r@, w) <==> among(keys@, w),
{
    let mut r: Vec<String> = Vec::new();
    let mut i: usize = 0;
    while i < keys.len()
        invariant
            i <= keys@.len(),
            strictly_sorted(r@),
            forall|w: Seq<char>| among(r@, w) <==> among(keys@.take(i as int), w),
        decreases keys@.len() - i,
    {
        let key = keys[i].as_str();
        let ghost pre = keys@.take(i as int);
        let ghost post = keys@.take(i + 1);
        proof {
            assert(post.drop_last() =~= pre);
            assert forall|w: Seq<char>| among(post, w) <==> (among(pre, w) || w == key@) by {
                if among(post, w) {
                    let k = choose|k: int| 0 <= k < post.len() && (#[trigger] post[k])@ == w;
                    if k < i {
                        assert(pre[k]@ == w);
                    }
                }
                if among(pre, w) {
                    let k = choose|k: int| 0 <= k < pre.len() && (#[trigger] pre[k])@ == w;
                    assert(post[k]@ == w);
                }
                if w == key@ {
                    assert(post[i as int]@ == w);
                }
            }
        }
        let mut k: usize = 0;
        while k < r.len() && str_less(r[k].as_str(), key)
            invariant
                k <= r@.len(),
                forall|q: int| 0 <= q < k ==> seq_less((#[trigger] r@[q])@, key@),
            decreases r@.len() - k,
        {
            k = k + 1;
        }
        let ghost old_r = r@;
        if k < r.len() && str_eq(r[k].as_str(), key) {
            proof {
                assert forall|w: Seq<char>| among(r@, w) <==> among(post, w) by {
                    if w == key@ {
                        assert(r@[k as int]@ == w);
                    }
                }
            }
        } else {
            proof {
                if k < old_r.len() {
                    assert(!seq_less(old_r[k as int]@, key@));
                    lemma_seq_less_total(old_r[k as int]@, key@);
                }
            }
            r.insert(k, owned(key));
            proof {
                assert(strictly_sorted(r@)) by {
                    assert forall|a: int, b: int| 0 <= a < b < r@.len() implies seq_less(r@[a]@, r@[b]@) by {
                        if b < k {
                            assert(r@[a] == old_r[a]);
                            assert(r@[b] == old_r[b]);
                        } else if b == k {
                            assert(r@[a] == old_r[a]);
                        } else if a == k {
                            assert(r@[b] == old_r[b - 1]);
                            if b - 1 > k {
                                assert(seq_less(old_r[k as int]@, old_r[b - 1]@));
                                lemma_seq_less_trans(key@, old_r[k as int]@, old_r[b - 1]@);
                            }
                        } else if a < k {
                            assert(r@[a] == old_r[a]);
                            assert(r@[b] == old_r[b - 1]);
                            if b - 1 > k {
                                assert(seq_less(old_r[k as int]@, old_r[b - 1]@));
                                lemma_seq_less_trans(key@, old_r[k as int]@, old_r[b - 1]@);
                            }
                            lemma_seq_less_trans(r@[a]@, key@, r@[b]@);
                        } else {
                            assert(r@[a] == old_r[a - 1]);
                            assert(r@[b] == old_r[b - 1]);
                        }
                    }
                }
                assert forall|w: Seq<char>| among(r@, w) <==> among(post, w) by {
                    if among(r@, w) {
                        let q = choose|q: int| 0 <= q < r@.len() && (#[trigger] r@[q])@ == w;
                        if q < k {
                            assert(old_r[q]@ == w);
                        } else if q > k {
                            assert(old_r[q - 1]@ == w);
                        }
                    }
                    if among(old_r, w) {
                        let q = choose|q: int| 0 <= q < old_r.len() && (#[trigger] old_r[q])@ == w;
                        if q < k {
                            assert(r@[q]@ == w);
                        } else {
                            assert(r@[q + 1]@ == w);
                        }
                    }
                    if w == key@ {
                        assert(r@[k as int]@ == w);
                    }
                }
            }
        }
        i = i + 1;
    }
    proof {
        assert(keys@.take(keys@.len() as int) =~= keys@);
    }
    r
}


/// Whether `s` has `::` starting at `i`.
pub open spec fn sep_at(s: Seq<char>, i: int) -> bool {
    0 <= i && i + 1 < s.len() && s[i] == ':' && s[i + 1] == ':'
}

/// The last place at or before `k` where `::` starts, or -1.
pub open spec fn last_sep(s: Seq<char>, k: int) -> int
    decreases k + 1,
{
    if k < 0 {
        -1
    } else if sep_at(s, k) {
        k
    } else {
        last_sep(s, k - 1)
    }
}

/// The module of a path: everything before its last `::`, or `crate` when it
/// has none.
pub open spec fn module_of(path: Seq<char>) -> Seq<char> {
    let i = last_sep(path, path.len() - 2);
    if i < 0 {
        "crate"@
    } else {
        path.take(i)
    }
}

/// The module of a path such as a parser type: where `Rule` lives beside it.
pub fn module_part(path: &str) -> (m: String)
    ensures
        m@ == module_of(path@),
{
    let v = chars_of(path);
    let mut i: usize = v.len();
    proof {
        if path@.len() >= 1 {
            assert(last_sep(path@, path@.len() - 1) == last_sep(path@, path@.len() - 2));
        }
    }
    while i > 1
        invariant
            v@ == path@,
            i <= v@.len(),
            v@.len() >= 1 ==> i >= 1,
            last_sep(path@, path@.len() - 2) == last_sep(path@, i - 2),
        decreases i,
    {
        if v[i - 2] == ':' && v[i - 1] == ':' {
            let k = i - 2;
            let mut m = String::new();
            let mut j: usize = 0;
            while j < k
                invariant
                    j <= k,
                    k + 2 <= v@.len(),
                    v@ == path@,
                    m@ == path@.take(j as int),
                decreases k - j,
            {
                push_char(&mut m, v[j]);
                proof {
                    assert(path@.take(j + 1) =~= path@.take(j as int).push(v@[j as int]));
                }
                j = j + 1;
            }
            return m;
        }
        i = i - 1;
    }
    proof {
        if path@.len() >= 2 {
            assert(last_sep(path@, i - 2) == -1);
        }
    }
    owned("crate")
}

} // verus!
