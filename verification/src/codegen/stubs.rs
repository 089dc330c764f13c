//! Handler stubs: one file per labelled alternative, written once and never
//! overwritten. A stub shows the grammar alternative it came from and the
//! parameters the handler receives, so the first thing an author sees is
//! what they have to work with.

use vstd::prelude::*;
use crate::codegen::{ident, ident_spec, sorted_distinct, strictly_sorted, among, HEADER};
use crate::codegen::drift::{find_from, find_pat, join, joined, occurs_at, views};
use crate::codegen::params::{doc_spec, first_bindings, params, ty_spec, Param};
use crate::lower::{Binding, Lowered, LoweredAlternative};
use crate::text::{chars_of, owned, push_char, seq_less, lemma_seq_less_asym, lemma_seq_less_total};

verus! {

/// The sentence a generated stub carries until someone implements it: the
/// stub tells its reader to delete the line, so its absence means somebody
/// did.
pub const UNIMPLEMENTED_MARKER: &'static str = "is not implemented. Delete this line";

pub const STUB_HEAD_A: &'static str = "//! Handler for `";

pub const STUB_HEAD_B: &'static str = "`.\n//!\n//! From this alternative of `rule ";

pub const STUB_HEAD_C: &'static str = "`:\n//!\n//! ```text\n//! ";

pub const STUB_HEAD_D: &'static str = "\n//! ```\n//!\n//! Created once by `nh build --rust` and never overwritten. Edit freely.\n\n";

pub const RUN_OPEN: &'static str = "pub fn run<H: Handlers>(host: &mut H";

pub const RUN_MID: &'static str = ", cx: &mut Ctx) -> Result<H::Out> {\n    compile_error!(\n        \"handler `";

pub const RUN_A: &'static str = "` is not implemented. Delete this line, then return \\\n         a value built from the parameters above.\"\n    );\n\n    // `cx.err(..)` reports at this node — no span threading needed.\n    cx.err(\"`";

pub const RUN_B: &'static str = "` is not implemented yet\")\n}\n";

pub const MOD_NOTE: &'static str = "\n// One module per labelled alternative. Each is a small file you own;\n// this list is regenerated so a new alternative wires itself up.\n\n";

pub const SHARED_OPEN: &'static str = "Shared<";

/// `s` with every `pat`, left to right, replaced by `rep`.
pub open spec fn replace_all(s: Seq<char>, pat: Seq<char>, rep: Seq<char>) -> Seq<char>
    decreases s.len(),
{
    let i = find_from(s, pat, 0);
    if pat.len() == 0 || i < 0 {
        s
    } else {
        proof {
            lemma_find_range(s, pat, 0);
        }
        s.take(i) + rep + replace_all(s.skip(i + pat.len()), pat, rep)
    }
}

/// A match found at or after `from` lies wholly inside `s`.
pub proof fn lemma_find_range(s: Seq<char>, pat: Seq<char>, from: int)
    ensures
        find_from(s, pat, from) >= 0 ==> from <= find_from(s, pat, from) && find_from(s, pat, from) + pat.len()
            <= s.len(),
    decreases s.len() + 1 - from,
{
    if from >= 0 && from + pat.len() <= s.len() && !occurs_at(s, pat, from) {
        lemma_find_range(s, pat, from + 1);
    }
}

/// The AST type a `lazy` parameter's type names: what follows its first
/// `Shared<`, up to the next `Shared<` and then the first `>`.
pub open spec fn lazy_of(ty: Seq<char>) -> Option<Seq<char>> {
    let i = find_from(ty, SHARED_OPEN@, 0);
    if i < 0 {
        None
    } else {
        let st = i + SHARED_OPEN@.len();
        let j = find_from(ty, SHARED_OPEN@, st);
        let piece = ty.subrange(st, if j < 0 { ty.len() as int } else { j });
        let k = find_from(piece, ">"@, 0);
        Some(if k < 0 { piece } else { piece.take(k) })
    }
}

/// The AST types the parameters of `bs` name through `Shared`, in order.
pub open spec fn lazy_names(bs: Seq<Binding>) -> Seq<Seq<char>>
    decreases bs.len(),
{
    if bs.len() == 0 {
        Seq::empty()
    } else {
        lazy_names(bs.drop_last()) + match lazy_of(ty_spec(bs.last())) {
            Some(x) => seq![x],
            None => Seq::empty(),
        }
    }
}

/// `lz` lists the members of `names`, each once, in string order.
pub open spec fn sorted_members(lz: Seq<Seq<char>>, names: Seq<Seq<char>>) -> bool {
    &&& forall|a: int, b: int| 0 <= a < b < lz.len() ==> seq_less(lz[a], lz[b])
    &&& forall|w: Seq<char>| lz.contains(w) <==> names.contains(w)
}

/// Whether some parameter's type mentions `Name`.
pub open spec fn mentions_name(bs: Seq<Binding>) -> bool {
    exists|i: int| 0 <= i < bs.len() && find_from(ty_spec(#[trigger] bs[i]), "Name"@, 0) >= 0
}

/// The imports a stub needs: `Shared` and the AST types when a parameter is
/// `lazy`, `Name` when one folds case, `Emitter` when the project targets a
/// VM, and the dispatch traits.
pub open spec fn imports(bs: Seq<Binding>, lz: Seq<Seq<char>>, gmod: Seq<char>, vm_target: bool) -> Seq<char> {
    (if lz.len() == 0 { Seq::<char>::empty() } else { "use nh_runtime::Shared;\n\n"@ }) + "use nh_runtime::{Ctx, Result};"@
        + (if vm_target { "\nuse nh_vm::Emitter;"@ } else { Seq::<char>::empty() }) + "\n"@ + (if mentions_name(bs) {
        "use nh_runtime::Name;\n"@
    } else {
        Seq::<char>::empty()
    }) + "\n"@ + ast_import(lz, gmod) + "use "@ + gmod + "::dispatch::"@ + (if lz.len() == 0 { "Handlers"@ } else { "{Eval, Handlers}"@ })
        + ";\n\n"@
}

/// One documentation line per parameter.
pub open spec fn doc_lines(bs: Seq<Binding>) -> Seq<char>
    decreases bs.len(),
{
    if bs.len() == 0 {
        Seq::empty()
    } else {
        doc_lines(bs.drop_last()) + "/// * `"@ + bs.last().name@ + "` — "@ + doc_spec(bs.last()) + "\n"@
    }
}

/// The parameters after `host`, as a stub declares them: a stub is generic
/// over `H`, so `Self::Out` is spelled `H::Out`.
pub open spec fn sig_text(bs: Seq<Binding>) -> Seq<char>
    decreases bs.len(),
{
    if bs.len() == 0 {
        Seq::empty()
    } else {
        sig_text(bs.drop_last()) + ", "@ + ident_spec(bs.last().name@) + ": "@ + replace_all(
            ty_spec(bs.last()),
            "Self::Out"@,
            "H::Out"@,
        )
    }
}

/// The whole stub for an alternative whose parameters come from `bs` and
/// whose `lazy` AST types are `lz`.
pub open spec fn stub_text(
    alt: LoweredAlternative,
    bs: Seq<Binding>,
    lz: Seq<Seq<char>>,
    gmod: Seq<char>,
    vm_target: bool,
) -> Seq<char> {
    STUB_HEAD_A@ + alt.pest_rule@ + STUB_HEAD_B@ + alt.rule@ + STUB_HEAD_C@ + alt.source@ + STUB_HEAD_D@ + imports(
        bs,
        lz,
        gmod,
        vm_target,
    ) + doc_lines(bs) + (if bs.len() + 2 > 7 { "#[allow(clippy::too_many_arguments)]\n"@ } else { Seq::<char>::empty() })
        + RUN_OPEN@ + sig_text(bs) + RUN_MID@ + alt.pest_rule@ + RUN_A@ + alt.pest_rule@ + RUN_B@
}

/// Searching from `i + t` in `s` is searching from `t` in what follows `i`.
proof fn lemma_find_shift(s: Seq<char>, pat: Seq<char>, i: int, t: int)
    requires
        0 <= i <= s.len(),
        0 <= t,
    ensures
        find_from(s, pat, i + t) == (if find_from(s.skip(i), pat, t) < 0 {
            -1
        } else {
            find_from(s.skip(i), pat, t) + i
        }),
    decreases s.len() + 1 - (i + t),
{
    if i + t + pat.len() <= s.len() {
        assert(s.subrange(i + t, i + t + pat.len()) =~= s.skip(i).subrange(t, t + pat.len()));
        if !occurs_at_both(s, pat, i, t) {
            lemma_find_shift(s, pat, i, t + 1);
        }
    }
}

spec fn occurs_at_both(s: Seq<char>, pat: Seq<char>, i: int, t: int) -> bool {
    crate::codegen::drift::occurs_at(s, pat, i + t)
}

fn replace_all_str(s: &str, pat: &str, rep: &str) -> (r: String)
    ensures
        r@ == replace_all(s@, pat@, rep@),
{
    let v = chars_of(s);
    let p = chars_of(pat);
    if p.len() == 0 {
        return owned(s);
    }
    let mut out = String::new();
    let mut i: usize = 0;
    proof {
        assert(s@.skip(0) =~= s@);
    }
    while i <= v.len()
        invariant
            v@ == s@,
            p@ == pat@,
            p@.len() > 0,
            i <= v@.len(),
            out@ + replace_all(s@.skip(i as int), pat@, rep@) == replace_all(s@, pat@, rep@),
        decreases v@.len() + 1 - i,
    {
        let ghost out0 = out@;
        let ghost rest = s@.skip(i as int);
        proof {
            lemma_find_shift(s@, pat@, i as int, 0);
            lemma_find_range(s@, pat@, i as int);
        }
        match find_pat(&v, &p, i) {
            None => {
                let mut j = i;
                while j < v.len()
                    invariant
                        v@ == s@,
                        i <= j <= v@.len(),
                        out@ == out0 + s@.subrange(i as int, j as int),
                    decreases v@.len() - j,
                {
                    push_char(&mut out, v[j]);
                    proof {
                        assert(s@.subrange(i as int, j + 1) =~= s@.subrange(i as int, j as int).push(v@[j as int]));
                    }
                    j = j + 1;
                }
                proof {
                    assert(s@.subrange(i as int, v@.len() as int) =~= rest);
                }
                return out;
            },
            Some(k) => {
                let mut j = i;
                while j < k
                    invariant
                        v@ == s@,
                        i <= j <= k,
                        k + p@.len() <= v@.len(),
                        out@ == out0 + s@.subrange(i as int, j as int),
                    decreases k - j,
                {
                    push_char(&mut out, v[j]);
                    proof {
                        assert(s@.subrange(i as int, j + 1) =~= s@.subrange(i as int, j as int).push(v@[j as int]));
                    }
                    j = j + 1;
                }
                out.append(rep);
                proof {
                    let r = k - i;
                    assert(rest.take(r) =~= s@.subrange(i as int, k as int));
                    assert(rest.skip(r + pat@.len()) =~= s@.skip(k + pat@.len()));
                }
                i = k + p.len();
            },
        }
    }
    out
}

/// The AST type a parameter type names through `Shared`, if any.
fn lazy_of_str(ty: &str) -> (r: Option<String>)
    ensures
        match lazy_of(ty@) {
            Some(x) => r matches Some(y) && y@ == x,
            None => r is None,
        },
{
    let v = chars_of(ty);
    let pat = chars_of(SHARED_OPEN);
    let n = v.len();
    proof {
        lemma_find_range(ty@, SHARED_OPEN@, 0);
    }
    let i = match find_pat(&v, &pat, 0) {
        Some(i) => i,
        None => return None,
    };
    proof {
        assert(v@ == ty@);
        assert(pat@ == SHARED_OPEN@);
        assert(i == find_from(ty@, SHARED_OPEN@, 0));
        assert(i + pat@.len() <= v@.len());
    }
    let st = i + pat.len();
    proof {
        lemma_find_range(ty@, SHARED_OPEN@, st as int);
    }
    let end = match find_pat(&v, &pat, st) {
        Some(j) => j,
        None => v.len(),
    };
    let mut piece: Vec<char> = Vec::new();
    let mut k = st;
    while k < end
        invariant
            v@ == ty@,
            st <= k <= end <= v@.len(),
            piece@ == ty@.subrange(st as int, k as int),
        decreases end - k,
    {
        piece.push(v[k]);
        proof {
            assert(ty@.subrange(st as int, k + 1) =~= ty@.subrange(st as int, k as int).push(v@[k as int]));
        }
        k = k + 1;
    }
    let gt = chars_of(">");
    proof {
        lemma_find_range(piece@, ">"@, 0);
    }
    let stop = match find_pat(&piece, &gt, 0) {
        Some(t) => t,
        None => piece.len(),
    };
    proof {
        let kk = find_from(piece@, ">"@, 0);
        assert(gt@ == ">"@);
        assert(stop as int == (if kk < 0 { piece@.len() as int } else { kk }));
    }
    let mut r = String::new();
    let mut t: usize = 0;
    while t < stop
        invariant
            t <= stop <= piece@.len(),
            r@ == piece@.take(t as int),
        decreases stop - t,
    {
        push_char(&mut r, piece[t]);
        proof {
            assert(piece@.take(t + 1) =~= piece@.take(t as int).push(piece@[t as int]));
        }
        t = t + 1;
    }
    proof {
        if stop == piece@.len() {
            assert(piece@.take(stop as int) =~= piece@);
        }
        let sp = find_from(ty@, SHARED_OPEN@, 0) + SHARED_OPEN@.len();
        assert(st == sp);
        let jj = find_from(ty@, SHARED_OPEN@, sp);
        assert(end == (if jj < 0 { ty@.len() as int } else { jj }));
        assert(piece@ == ty@.subrange(sp, if jj < 0 { ty@.len() as int } else { jj }));
        let kk = find_from(piece@, ">"@, 0);
        assert(r@ == (if kk < 0 { piece@ } else { piece@.take(kk) }));
    }
    Some(r)
}

/// Whether `ty` mentions `Name`.
fn mentions_name_str(ty: &str) -> (b: bool)
    ensures
        b == (find_from(ty@, "Name"@, 0) >= 0),
{
    let v = chars_of(ty);
    let pat = chars_of("Name");
    find_pat(&v, &pat, 0).is_some()
}

/// In a list of strings, being among them is being in their views.
proof fn lemma_among_views(v: Seq<String>, w: Seq<char>)
    ensures
        among(v, w) <==> views(v).contains(w),
{
    if among(v, w) {
        let k = choose|k: int| 0 <= k < v.len() && (#[trigger] v[k])@ == w;
        assert(views(v)[k] == w);
    }
    if views(v).contains(w) {
        let k = views(v).index_of(w);
        assert(v[k]@ == w);
    }
}

/// The `ast` import: none, one type, or a braced list.
pub open spec fn ast_import(lz: Seq<Seq<char>>, gmod: Seq<char>) -> Seq<char> {
    if lz.len() == 0 {
        Seq::<char>::empty()
    } else if lz.len() == 1 {
        "use "@ + gmod + "::ast::"@ + lz[0] + ";\n"@
    } else {
        "use "@ + gmod + "::ast::{"@ + joined(lz, ", "@) + "};\n"@
    }
}

fn emit_ast_import(out: &mut String, lz: &Vec<String>, generated_mod: &str)
    ensures
        final(out)@ == old(out)@ + ast_import(views(lz@), generated_mod@),
{
    if lz.len() == 1 {
        out.append("use ");
        out.append(generated_mod);
        out.append("::ast::");
        out.append(lz[0].as_str());
        out.append(";\n");
    } else if lz.len() > 1 {
        out.append("use ");
        out.append(generated_mod);
        out.append("::ast::{");
        out.append(join(lz, ", ").as_str());
        out.append("};\n");
    }
    proof {
        assert(final(out)@ =~= old(out)@ + ast_import(views(lz@), generated_mod@));
    }
}

/// The imports a stub needs.
#[verifier::rlimit(40)]
fn emit_imports(
    out: &mut String,
    lz: &Vec<String>,
    generated_mod: &str,
    vm_target: bool,
    any_name: bool,
    Ghost(bs): Ghost<Seq<Binding>>,
)
    requires
        any_name == mentions_name(bs),
    ensures
        final(out)@ == old(out)@ + imports(bs, views(lz@), generated_mod@, vm_target),
{
    let ghost o = out@;
    let ghost lzv = views(lz@);
    if lz.len() > 0 {
        out.append("use nh_runtime::Shared;\n\n");
    }
    out.append("use nh_runtime::{Ctx, Result};");
    if vm_target {
        out.append("\nuse nh_vm::Emitter;");
    }
    out.append("\n");
    if any_name {
        out.append("use nh_runtime::Name;\n");
    }
    out.append("\n");
    let ghost o2 = out@;
    proof {
        assert(o2 =~= o + (if lzv.len() == 0 { Seq::<char>::empty() } else { "use nh_runtime::Shared;\n\n"@ })
            + "use nh_runtime::{Ctx, Result};"@ + (if vm_target { "\nuse nh_vm::Emitter;"@ } else { Seq::<char>::empty() }) + "\n"@
            + (if mentions_name(bs) { "use nh_runtime::Name;\n"@ } else { Seq::<char>::empty() }) + "\n"@);
    }
    emit_ast_import(out, lz, generated_mod);
    out.append("use ");
    out.append(generated_mod);
    out.append("::dispatch::");
    if lz.len() == 0 {
        out.append("Handlers");
    } else {
        out.append("{Eval, Handlers}");
    }
    out.append(";\n\n");
    proof {
        assert(out@ =~= o2 + ast_import(lzv, generated_mod@) + "use "@ + generated_mod@ + "::dispatch::"@ + (if lzv.len()
            == 0 {
            "Handlers"@
        } else {
            "{Eval, Handlers}"@
        }) + ";\n\n"@);
        assert(out@ =~= o + imports(bs, lzv, generated_mod@, vm_target));
    }
}

/// The stub for one labelled alternative, importing from `generated_mod`
/// (the module the generated files live in) and bringing `Emitter` in when
/// the project targets a VM. The `lazy` AST types are imported once each,
/// in string order.
pub fn generate(alt: &LoweredAlternative, generated_mod: &str, vm_target: bool) -> (out: String)
    ensures
        exists|lz: Seq<Seq<char>>| #![auto]
            sorted_members(lz, lazy_names(first_bindings(alt.bindings@))) && out@ == stub_text(
                *alt,
                first_bindings(alt.bindings@),
                lz,
                generated_mod@,
                vm_target,
            ),
{
    let ghost bs = first_bindings(alt.bindings@);
    let ps = params(alt);
    let mut out = owned(STUB_HEAD_A);
    out.append(alt.pest_rule.as_str());
    out.append(STUB_HEAD_B);
    out.append(alt.rule.as_str());
    out.append(STUB_HEAD_C);
    out.append(alt.source.as_str());
    out.append(STUB_HEAD_D);
    let ghost head = out@;

    let mut lazy: Vec<String> = Vec::new();
    let mut any_name = false;
    let mut i: usize = 0;
    proof {
        assert(bs.take(0) =~= Seq::<Binding>::empty());
        assert(views(lazy@) =~= Seq::<Seq<char>>::empty());
    }
    while i < ps.len()
        invariant
            i <= ps@.len(),
            ps@.len() == bs.len(),
            forall|q: int| 0 <= q < ps@.len() ==> crate::codegen::params::param_of(#[trigger] ps@[q], bs[q]),
            views(lazy@) == lazy_names(bs.take(i as int)),
            any_name == exists|q: int| 0 <= q < i && find_from(ty_spec(#[trigger] bs[q]), "Name"@, 0) >= 0,
        decreases ps@.len() - i,
    {
        let ghost l0 = lazy@;
        proof {
            assert(crate::codegen::params::param_of(ps@[i as int], bs[i as int]));
            assert(bs.take(i + 1).drop_last() =~= bs.take(i as int));
            assert(bs.take(i + 1).last() == bs[i as int]);
        }
        match lazy_of_str(ps[i].ty.as_str()) {
            Some(x) => {
                lazy.push(x);
                proof {
                    assert(views(lazy@) =~= views(l0) + seq![x@]);
                }
            },
            None => {
                proof {
                    assert(views(lazy@) =~= views(l0) + Seq::<Seq<char>>::empty());
                }
            },
        }
        if mentions_name_str(ps[i].ty.as_str()) {
            any_name = true;
        }
        i = i + 1;
    }
    proof {
        assert(bs.take(bs.len() as int) =~= bs);
        assert(any_name == mentions_name(bs));
    }
    let lz = sorted_distinct(&lazy);
    let ghost lzv = views(lz@);
    proof {
        assert forall|w: Seq<char>| lzv.contains(w) <==> lazy_names(bs).contains(w) by {
            lemma_among_views(lz@, w);
            lemma_among_views(lazy@, w);
        }
        assert(sorted_members(lzv, lazy_names(bs)));
    }

    emit_imports(&mut out, &lz, generated_mod, vm_target, any_name, Ghost(bs));
    proof {
        assert(out@ =~= head + imports(bs, lzv, generated_mod@, vm_target));
    }
    let ghost head2 = out@;

    let mut i: usize = 0;
    proof {
        assert(out@ =~= head2 + doc_lines(bs.take(0)));
    }
    while i < ps.len()
        invariant
            i <= ps@.len(),
            ps@.len() == bs.len(),
            forall|q: int| 0 <= q < ps@.len() ==> crate::codegen::params::param_of(#[trigger] ps@[q], bs[q]),
            out@ == head2 + doc_lines(bs.take(i as int)),
        decreases ps@.len() - i,
    {
        out.append("/// * `");
        out.append(ps[i].name.as_str());
        out.append("` — ");
        out.append(ps[i].doc.as_str());
        out.append("\n");
        proof {
            assert(crate::codegen::params::param_of(ps@[i as int], bs[i as int]));
            assert(bs.take(i + 1).drop_last() =~= bs.take(i as int));
            assert(out@ =~= head2 + doc_lines(bs.take(i + 1)));
        }
        i = i + 1;
    }
    if ps.len() > 5 {
        out.append("#[allow(clippy::too_many_arguments)]\n");
    }
    out.append(RUN_OPEN);
    let ghost head3 = out@;
    let mut i: usize = 0;
    proof {
        assert(out@ =~= head3 + sig_text(bs.take(0)));
    }
    while i < ps.len()
        invariant
            i <= ps@.len(),
            ps@.len() == bs.len(),
            forall|q: int| 0 <= q < ps@.len() ==> crate::codegen::params::param_of(#[trigger] ps@[q], bs[q]),
            out@ == head3 + sig_text(bs.take(i as int)),
        decreases ps@.len() - i,
    {
        out.append(", ");
        out.append(ident(ps[i].name.as_str()).as_str());
        out.append(": ");
        out.append(replace_all_str(ps[i].ty.as_str(), "Self::Out", "H::Out").as_str());
        proof {
            assert(crate::codegen::params::param_of(ps@[i as int], bs[i as int]));
            assert(bs.take(i + 1).drop_last() =~= bs.take(i as int));
            assert(out@ =~= head3 + sig_text(bs.take(i + 1)));
        }
        i = i + 1;
    }
    out.append(RUN_MID);
    out.append(alt.pest_rule.as_str());
    out.append(RUN_A);
    out.append(alt.pest_rule.as_str());
    out.append(RUN_B);
    proof {
        assert(bs.take(bs.len() as int) =~= bs);
        assert(out@ =~= stub_text(*alt, bs, lzv, generated_mod@, vm_target));
    }
    out
}

/// `handlers/mod.rs`, always regenerated since it only lists modules: one
/// `pub mod` line per labelled alternative, in string order.
pub open spec fn mod_file(names: Seq<Seq<char>>) -> Seq<char> {
    HEADER@ + MOD_NOTE@ + mod_lines(names)
}

pub open spec fn mod_lines(names: Seq<Seq<char>>) -> Seq<char>
    decreases names.len(),
{
    if names.len() == 0 {
        Seq::empty()
    } else {
        mod_lines(names.drop_last()) + "pub mod "@ + names.last() + ";\n"@
    }
}

/// The pest rule of each labelled alternative.
pub open spec fn alt_rules(alts: Seq<crate::lower::LoweredAlternative>) -> Seq<Seq<char>> {
    alts.map_values(|a: crate::lower::LoweredAlternative| a.pest_rule@)
}

/// `names` in string order, duplicates kept.
pub open spec fn sorted_perm(lz: Seq<Seq<char>>, names: Seq<Seq<char>>) -> bool {
    &&& forall|a: int, b: int| 0 <= a < b < lz.len() ==> !seq_less(lz[b], lz[a])
    &&& lz.to_multiset() == names.to_multiset()
}

/// The strings of `v` in string order, duplicates kept.
fn sorted_copy(v: &Vec<String>) -> (r: Vec<String>)
    ensures
        sorted_perm(views(r@), views(v@)),
{
    let mut r: Vec<String> = Vec::new();
    let mut i: usize = 0;
    proof {
        assert(views(v@.take(0)) =~= Seq::<Seq<char>>::empty());
        assert(views(r@) =~= Seq::<Seq<char>>::empty());
    }
    while i < v.len()
        invariant
            i <= v@.len(),
            sorted_perm(views(r@), views(v@.take(i as int))),
        decreases v@.len() - i,
    {
        let key = v[i].as_str();
        let mut k: usize = 0;
        while k < r.len() && !crate::text::str_less(key, r[k].as_str())
            invariant
                k <= r@.len(),
                forall|q: int| 0 <= q < k ==> !seq_less(key@, (#[trigger] r@[q])@),
            decreases r@.len() - k,
        {
            k = k + 1;
        }
        let ghost old_r = views(r@);
        r.insert(k, owned(key));
        proof {
            let nr = views(r@);
            assert(nr =~= old_r.insert(k as int, key@));
            assert forall|a: int, b: int| 0 <= a < b < nr.len() implies !seq_less(nr[b], nr[a]) by {
                if b < k {
                    assert(nr[a] == old_r[a] && nr[b] == old_r[b]);
                } else if b == k {
                    assert(nr[a] == old_r[a] && nr[b] == key@);
                } else if a < k {
                    assert(nr[a] == old_r[a] && nr[b] == old_r[b - 1]);
                } else if a == k {
                    assert(nr[a] == key@ && nr[b] == old_r[b - 1]);
                    assert(seq_less(key@, old_r[k as int]));
                    if seq_less(old_r[b - 1], key@) {
                        if b - 1 == k {
                            lemma_seq_less_asym(key@, old_r[k as int]);
                        } else {
                            crate::text::lemma_seq_less_trans(old_r[b - 1], key@, old_r[k as int]);
                        }
                    }
                } else {
                    assert(nr[a] == old_r[a - 1] && nr[b] == old_r[b - 1]);
                }
            }
            assert(views(v@.take(i + 1)) =~= views(v@.take(i as int)).push(key@));
            vstd::seq_lib::to_multiset_insert(old_r, k as int, key@);
            vstd::seq_lib::to_multiset_build(views(v@.take(i as int)), key@);
        }
        i = i + 1;
    }
    proof {
        assert(v@.take(v@.len() as int) =~= v@);
    }
    r
}

/// `handlers/mod.rs`: one `pub mod` line per labelled alternative, in
/// string order. Always regenerated, since it only lists modules.
pub fn generate_mod(lowered: &Lowered) -> (out: String)
    ensures
        exists|names: Seq<Seq<char>>| #![auto]
            sorted_perm(names, alt_rules(lowered.alternatives@)) && out@ == mod_file(names),
{
    let alts = &lowered.alternatives;
    let mut names: Vec<String> = Vec::new();
    let mut i: usize = 0;
    while i < alts.len()
        invariant
            i <= alts@.len(),
            views(names@) == alt_rules(alts@.take(i as int)),
        decreases alts@.len() - i,
    {
        names.push(alts[i].pest_rule.clone());
        proof {
            assert(alt_rules(alts@.take(i + 1)) =~= alt_rules(alts@.take(i as int)).push(alts@[i as int].pest_rule@));
            assert(views(names@) =~= alt_rules(alts@.take(i + 1)));
        }
        i = i + 1;
    }
    proof {
        assert(alts@.take(alts@.len() as int) =~= alts@);
    }
    let sorted = sorted_copy(&names);
    let mut out = owned(HEADER);
    out.append(MOD_NOTE);
    let ghost head = out@;
    let mut i: usize = 0;
    proof {
        assert(views(sorted@).take(0) =~= Seq::<Seq<char>>::empty());
        assert(out@ =~= head + mod_lines(views(sorted@).take(0)));
    }
    while i < sorted.len()
        invariant
            i <= sorted@.len(),
            out@ == head + mod_lines(views(sorted@).take(i as int)),
        decreases sorted@.len() - i,
    {
        out.append("pub mod ");
        out.append(sorted[i].as_str());
        out.append(";\n");
        proof {
            let t = views(sorted@).take(i + 1);
            assert(t.drop_last() =~= views(sorted@).take(i as int));
            assert(t.last() == sorted@[i as int]@);
            assert(out@ =~= head + mod_lines(t));
        }
        i = i + 1;
    }
    proof {
        assert(views(sorted@).take(sorted@.len() as int) =~= views(sorted@));
        assert(out@ =~= mod_file(views(sorted@)));
    }
    out
}

/// A stub's text depends on its alternative alone: there is one list of
/// `lazy` types in string order, so two runs write the same file.
pub proof fn stubs_are_determined(
    alt: LoweredAlternative,
    generated_mod: Seq<char>,
    vm_target: bool,
    lz1: Seq<Seq<char>>,
    lz2: Seq<Seq<char>>,
)
    requires
        sorted_members(lz1, lazy_names(first_bindings(alt.bindings@))),
        sorted_members(lz2, lazy_names(first_bindings(alt.bindings@))),
    ensures
        stub_text(alt, first_bindings(alt.bindings@), lz1, generated_mod, vm_target) == stub_text(
            alt,
            first_bindings(alt.bindings@),
            lz2,
            generated_mod,
            vm_target,
        ),
{
    crate::text::lemma_sorted_same_keys(lz1, lz2);
}

/// `handlers/mod.rs` depends on the alternatives alone: there is one way to
/// list their modules in string order.
pub proof fn module_lists_are_determined(lowered: Lowered, n1: Seq<Seq<char>>, n2: Seq<Seq<char>>)
    requires
        sorted_perm(n1, alt_rules(lowered.alternatives@)),
        sorted_perm(n2, alt_rules(lowered.alternatives@)),
    ensures
        mod_file(n1) == mod_file(n2),
{
    crate::text::lemma_sorted_perm_unique(n1, n2);
}

} // verus!
