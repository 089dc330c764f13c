//! Generating the operator table, the evaluator, and role signatures.
//!
//! The table itself was resolved by [`crate::operators`]; what is emitted here
//! is the runtime half: `op_info` (rule to precedence, fixity and
//! associativity), `eval_expr` (one `Operators` call per folded node, with
//! lazy operands handed over unevaluated), and the discriminant enums of
//! roles that a whole tier shares.

use vstd::prelude::*;
use crate::codegen::{ident, ident_spec, pascal_name, pascal_name_spec};
use crate::lower::names::{symbolic, symbolic_spec};
use crate::operators::{Operator, OperatorTable, Tier};
use crate::syntax::ast::Fixity;
use crate::text::{decimal, decimal_string, owned, seq_less, str_eq, str_less, lemma_seq_less_asym, lemma_seq_less_trans, lemma_seq_less_total};

verus! {

/// One operator, resolved for code generation.
pub struct Emitted<'a> {
    /// The pest rule the lowerer emitted for the operator's spelling.
    pub rule: String,
    pub op: &'a Operator,
    pub tier: &'a Tier,
    /// Precedence: higher binds tighter.
    pub precedence: u16,
    /// The role's method name.
    pub role: String,
    /// Discriminant variant, when the tier shares one role.
    pub variant: Option<String>,
}

/// The pest rule for an operator spelling; the lowerer names operator rules
/// the same way, so the table references rules that exist.
pub open spec fn op_rule_spec(literal: Seq<char>) -> Seq<char> {
    "nh_op_"@ + symbolic_spec(literal)
}

/// Every (tier index, operator) of `tiers`, tier by tier.
pub open spec fn entries(tiers: Seq<Tier>) -> Seq<(int, Operator)>
    decreases tiers.len(),
{
    if tiers.len() == 0 {
        Seq::empty()
    } else {
        entries(tiers.drop_last()) + tiers.last().operators@.map_values(
            |op: Operator| (tiers.len() - 1, op),
        )
    }
}

/// What identifies an emitted operator: its rule and its tier's fixity.
pub open spec fn entry_key(tiers: Seq<Tier>, e: (int, Operator)) -> (Seq<char>, Fixity) {
    (op_rule_spec(e.1.literal@), tiers[e.0].fixity)
}

/// The entries of `es` whose key no earlier entry has.
pub open spec fn first_entries(tiers: Seq<Tier>, es: Seq<(int, Operator)>) -> Seq<(int, Operator)>
    decreases es.len(),
{
    if es.len() == 0 {
        Seq::empty()
    } else {
        let prev = first_entries(tiers, es.drop_last());
        if exists|j: int| 0 <= j < es.len() - 1 && #[trigger] entry_key(tiers, es[j]) == entry_key(
            tiers,
            es.last(),
        ) {
            prev
        } else {
            prev.push(es.last())
        }
    }
}

/// Whether `e` is the emitted form of the entry `x` of `tiers`.
pub open spec fn emitted_from(e: Emitted, tiers: Seq<Tier>, x: (int, Operator)) -> bool {
    let tier = tiers[x.0];
    &&& e.rule@ == op_rule_spec(x.1.literal@)
    &&& *e.op == x.1
    &&& *e.tier == tier
    &&& e.precedence == x.0 + 1
    &&& e.role@ == (match tier.grouped_role {
        Some(g) => g@,
        None => x.1.role@,
    })
    &&& e.variant.is_some() == tier.grouped_role.is_some()
    &&& (e.variant matches Some(v) ==> v@ == pascal_name_spec(symbolic_spec(x.1.literal@)))
}

fn op_rule(literal: &str) -> (s: String)
    ensures
        s@ == op_rule_spec(literal@),
{
    let mut s = owned("nh_op_");
    s.append(symbolic(literal).as_str());
    s
}

/// Resolves every operator to the pest rule the lowerer emitted for it.
///
/// The lowerer emits one rule per distinct spelling, shared across
/// fixities, so `-` has a single rule used by both `sub` and `neg`; an
/// operator is emitted once per rule and fixity, at its first occurrence.
/// Precedence is the tier's index plus one: tier 0 binds loosest.
pub fn emitted<'a>(table: &'a OperatorTable) -> (out: Vec<Emitted<'a>>)
    requires
        table.tiers@.len() <= 0xffff,
    ensures
        out@.len() == first_entries(table.tiers@, entries(table.tiers@)).len(),
        forall|k: int| 0 <= k < out@.len() ==> emitted_from(#[trigger] out@[k], table.tiers@, first_entries(table.tiers@, entries(table.tiers@))[k]),
{
    let ghost tiers = table.tiers@;
    let mut out: Vec<Emitted<'a>> = Vec::new();
    let mut seen: Vec<(String, Fixity)> = Vec::new();
    let mut i: usize = 0;
    while i < table.tiers.len()
        invariant
            tiers == table.tiers@,
            tiers.len() <= 0xffff,
            i <= tiers.len(),
            seen@.len() == entries(tiers.take(i as int)).len(),
            forall|m: int| 0 <= m < seen@.len() ==> ((#[trigger] seen@[m]).0@, seen@[m].1) == entry_key(tiers, entries(tiers.take(i as int))[m]),
            out@.len() == first_entries(tiers, entries(tiers.take(i as int))).len(),
            forall|k: int| 0 <= k < out@.len() ==> emitted_from(#[trigger] out@[k], tiers, first_entries(tiers, entries(tiers.take(i as int)))[k]),
        decreases tiers.len() - i,
    {
        let tier = &table.tiers[i];
        let ghost before = entries(tiers.take(i as int));
        let ghost here = tier.operators@.map_values(|op: Operator| (i as int, op));
        proof {
            assert(tiers.take(i + 1).drop_last() =~= tiers.take(i as int));
            assert(entries(tiers.take(i + 1)) == before + here);
            lemma_entries_index(tiers, i as int);
        }
        let mut j: usize = 0;
        while j < tier.operators.len()
            invariant
                tiers == table.tiers@,
                tiers.len() <= 0xffff,
                i < tiers.len(),
                *tier == tiers[i as int],
                here == tier.operators@.map_values(|op: Operator| (i as int, op)),
                j <= tier.operators@.len(),
                forall|m: int| 0 <= m < before.len() ==> 0 <= (#[trigger] before[m]).0 < i,
                seen@.len() == (before + here.take(j as int)).len(),
                forall|m: int| 0 <= m < seen@.len() ==> ((#[trigger] seen@[m]).0@, seen@[m].1) == entry_key(tiers, (before + here.take(j as int))[m]),
                out@.len() == first_entries(tiers, before + here.take(j as int)).len(),
                forall|k: int| 0 <= k < out@.len() ==> emitted_from(#[trigger] out@[k], tiers, first_entries(tiers, before + here.take(j as int))[k]),
            decreases tier.operators@.len() - j,
        {
            let op = &tier.operators[j];
            let rule = op_rule(op.literal.as_str());
            let ghost es = before + here.take(j as int);
            let ghost x = (i as int, *op);
            proof {
                assert(here[j as int] == x);
                assert(before + here.take(j + 1) =~= es.push(x));
                assert(es.push(x).drop_last() =~= es);
                assert(entry_key(tiers, x) == (rule@, tier.fixity));
            }
            let mut dup = false;
            let mut m: usize = 0;
            while m < seen.len()
                invariant
                    m <= seen@.len(),
                    seen@.len() == es.len(),
                    dup == exists|q: int| 0 <= q < m && #[trigger] entry_key(tiers, es[q]) == entry_key(tiers, x),
                    forall|q: int| 0 <= q < seen@.len() ==> ((#[trigger] seen@[q]).0@, seen@[q].1) == entry_key(tiers, es[q]),
                    entry_key(tiers, x) == (rule@, tier.fixity),
                decreases seen@.len() - m,
            {
                let same = str_eq(seen[m].0.as_str(), rule.as_str()) && seen[m].1 == tier.fixity;
                proof {
                    assert(((seen@[m as int]).0@, seen@[m as int].1) == entry_key(tiers, es[m as int]));
                    if same {
                        assert(entry_key(tiers, es[m as int]) == entry_key(tiers, x));
                    }
                }
                dup = dup || same;
                m = m + 1;
            }
            let fixity = tier.fixity;
            if !dup {
                let role = match &tier.grouped_role {
                    Some(g) => owned(g.as_str()),
                    None => owned(op.role.as_str()),
                };
                let variant = match &tier.grouped_role {
                    Some(_) => Some(pascal_name(symbolic(op.literal.as_str()).as_str())),
                    None => None,
                };
                let e = Emitted {
                    rule: owned(rule.as_str()),
                    op,
                    tier,
                    precedence: (i as u16) + 1,
                    role,
                    variant,
                };
                out.push(e);
            }
            seen.push((rule, fixity));
            proof {
                let es2 = es.push(x);
                assert(seen@.len() == es2.len());
                assert forall|q: int| 0 <= q < seen@.len() implies ((#[trigger] seen@[q]).0@, seen@[q].1) == entry_key(tiers, es2[q]) by {
                    if q < es.len() {
                        assert(es2[q] == es[q]);
                    }
                }
            }
            j = j + 1;
        }
        proof {
            assert(here.take(tier.operators@.len() as int) =~= here);
        }
        i = i + 1;
    }
    proof {
        assert(tiers.take(tiers.len() as int) =~= tiers);
    }
    out
}

proof fn lemma_entries_index(tiers: Seq<Tier>, i: int)
    requires
        0 <= i < tiers.len(),
    ensures
        forall|m: int| 0 <= m < entries(tiers.take(i)).len() ==> 0 <= (#[trigger] entries(tiers.take(i))[m]).0 < i,
    decreases i,
{
    if i > 0 {
        lemma_entries_index(tiers, i - 1);
        assert(tiers.take(i).drop_last() =~= tiers.take(i - 1));
        let prev = entries(tiers.take(i - 1));
        let here = tiers.take(i).last().operators@.map_values(|op: Operator| (i - 1, op));
        assert(entries(tiers.take(i)) == prev + here);
        assert forall|m: int| 0 <= m < entries(tiers.take(i)).len() implies 0 <= (#[trigger] entries(tiers.take(i))[m]).0 < i by {
            if m < prev.len() {
                assert(entries(tiers.take(i))[m] == prev[m]);
            } else {
                assert(entries(tiers.take(i))[m] == here[m - prev.len()]);
            }
        }
    } else {
        assert(tiers.take(0) =~= Seq::<Tier>::empty());
    }
}


pub open spec fn pair_views(v: Seq<(String, String)>) -> Seq<(Seq<char>, Seq<char>)> {
    v.map_values(|p: (String, String)| (p.0@, p.1@))
}

/// The distinct variants of `role`, each with the spelling that first
/// produced it, in order of first appearance.
pub open spec fn variants_of(ops: Seq<Emitted>, role: Seq<char>) -> Seq<(Seq<char>, Seq<char>)>
    decreases ops.len(),
{
    if ops.len() == 0 {
        Seq::empty()
    } else {
        let prev = variants_of(ops.drop_last(), role);
        let e = ops.last();
        if e.variant is Some && e.role@ == role && !(exists|k: int| 0 <= k < prev.len() && (#[trigger] prev[k]).0 == e.variant->0@) {
            prev.push((e.variant->0@, e.op.literal@))
        } else {
            prev
        }
    }
}

/// Whether the roles of `v` strictly increase.
pub open spec fn roles_sorted<T>(v: Seq<(String, T)>) -> bool {
    forall|a: int, b: int| 0 <= a < b < v.len() ==> seq_less(v[a].0@, v[b].0@)
}

/// Whether `g` is what [`grouped_roles`] gives for `ops`.
pub open spec fn grouped_spec(ops: Seq<Emitted>, g: Seq<(String, Vec<(String, String)>)>) -> bool {
    &&& roles_sorted(g)
    &&& forall|k: int| 0 <= k < g.len() ==> pair_views((#[trigger] g[k]).1@) == variants_of(ops, g[k].0@) && g[k].1@.len() > 1
    &&& forall|role: Seq<char>| #[trigger] variants_of(ops, role).len() > 1 ==> exists|k: int| 0 <= k < g.len() && g[k].0@ == role
}

fn has_variant(list: &Vec<(String, String)>, v: &str) -> (b: bool)
    ensures
        b == exists|k: int| 0 <= k < list@.len() && (#[trigger] pair_views(list@)[k]).0 == v@,
{
    let mut k: usize = 0;
    while k < list.len()
        invariant
            k <= list@.len(),
            forall|q: int| 0 <= q < k ==> (#[trigger] pair_views(list@)[q]).0 != v@,
        decreases list@.len() - k,
    {
        proof {
            assert(pair_views(list@)[k as int].0 == list@[k as int].0@);
        }
        if str_eq(list[k].0.as_str(), v) {
            return true;
        }
        k = k + 1;
    }
    false
}

/// Roles that take a discriminant, in role order, each with its variants and
/// the spelling that first produced each. A role is listed only when it has
/// more than one variant: a tier binding one role with a single operator
/// gains nothing from a discriminant.
pub fn grouped_roles(ops: &[Emitted]) -> (g: Vec<(String, Vec<(String, String)>)>)
    ensures
        grouped_spec(ops@, g@),
{
    let mut acc: Vec<(String, Vec<(String, String)>)> = Vec::new();
    let mut i: usize = 0;
    while i < ops.len()
        invariant
            i <= ops@.len(),
            roles_sorted(acc@),
            forall|k: int| 0 <= k < acc@.len() ==> pair_views((#[trigger] acc@[k]).1@) == variants_of(ops@.take(i as int), acc@[k].0@),
            forall|role: Seq<char>| #[trigger] variants_of(ops@.take(i as int), role).len() > 0 ==> exists|k: int| 0 <= k < acc@.len() && acc@[k].0@ == role,
        decreases ops@.len() - i,
    {
        let e = &ops[i];
        let ghost pre = ops@.take(i as int);
        let ghost post = ops@.take(i + 1);
        proof {
            assert(post.drop_last() =~= pre);
            assert(post.last() == *e);
        }
        match &e.variant {
            Some(v) => {
                let role = e.role.as_str();
                let mut k: usize = 0;
                while k < acc.len() && str_less(acc[k].0.as_str(), role)
                    invariant
                        k <= acc@.len(),
                        forall|q: int| 0 <= q < k ==> seq_less((#[trigger] acc@[q]).0@, role@),
                    decreases acc@.len() - k,
                {
                    k = k + 1;
                }
                let found = k < acc.len() && str_eq(acc[k].0.as_str(), role);
                let ghost old_acc = acc@;
                if found {
                    let (name, mut list) = acc.remove(k);
                    let ghost before_list = pair_views(list@);
                    let present = has_variant(&list, v.as_str());
                    if !present {
                        list.push((owned(v.as_str()), owned(e.op.literal.as_str())));
                        proof {
                            assert(pair_views(list@) =~= before_list.push((v@, e.op.literal@)));
                        }
                    }
                    acc.insert(k, (name, list));
                    proof {
                        assert(acc@.len() == old_acc.len());
                        assert forall|q: int| 0 <= q < acc@.len() && q != k implies acc@[q] == old_acc[q] by {}
                        assert(acc@[k as int].0@ == role@);
                        assert(pair_views(acc@[k as int].1@) == variants_of(post, role@));
                        assert forall|q: int| 0 <= q < acc@.len() implies pair_views((#[trigger] acc@[q]).1@) == variants_of(post, acc@[q].0@) by {
                            if q != k {
                                assert(acc@[q] == old_acc[q]);
                                if acc@[q].0@ == role@ {
                                    lemma_seq_less_asym(acc@[q].0@, role@);
                                    if q < k {
                                        assert(seq_less(old_acc[q].0@, old_acc[k as int].0@));
                                    } else {
                                        assert(seq_less(old_acc[k as int].0@, old_acc[q].0@));
                                    }
                                    lemma_seq_less_asym(role@, role@);
                                }
                            }
                        }
                        assert forall|r: Seq<char>| #[trigger] variants_of(post, r).len() > 0 implies exists|q: int| 0 <= q < acc@.len() && acc@[q].0@ == r by {
                            if r == role@ {
                                assert(acc@[k as int].0@ == r);
                            } else {
                                assert(variants_of(post, r) == variants_of(pre, r));
                                let q = choose|q: int| 0 <= q < old_acc.len() && old_acc[q].0@ == r;
                                assert(acc@[q] == old_acc[q]);
                            }
                        }
                        assert(roles_sorted(acc@)) by {
                            assert forall|a: int, b: int| 0 <= a < b < acc@.len() implies seq_less(acc@[a].0@, acc@[b].0@) by {
                                assert(acc@[a].0@ == old_acc[a].0@);
                                assert(acc@[b].0@ == old_acc[b].0@);
                            }
                        }
                    }
                } else {
                    let mut list: Vec<(String, String)> = Vec::new();
                    list.push((owned(v.as_str()), owned(e.op.literal.as_str())));
                    proof {
                        if k < old_acc.len() {
                            assert(!seq_less(old_acc[k as int].0@, role@));
                            assert(old_acc[k as int].0@ != role@);
                            lemma_seq_less_total(old_acc[k as int].0@, role@);
                        }
                        // `role` had no entry, so it had no variants yet.
                        if variants_of(pre, role@).len() > 0 {
                            let q = choose|q: int| 0 <= q < old_acc.len() && old_acc[q].0@ == role@;
                            if q < k {
                                lemma_seq_less_asym(role@, role@);
                            } else if q > k {
                                assert(seq_less(old_acc[k as int].0@, old_acc[q].0@));
                                lemma_seq_less_asym(old_acc[k as int].0@, role@);
                                lemma_seq_less_trans(role@, old_acc[k as int].0@, role@);
                                lemma_seq_less_asym(role@, role@);
                            }
                        }
                        assert(variants_of(pre, role@) =~= Seq::<(Seq<char>, Seq<char>)>::empty());
                        assert(pair_views(list@) =~= variants_of(post, role@));
                    }
                    acc.insert(k, (owned(role), list));
                    proof {
                        assert(acc@ == old_acc.insert(k as int, acc@[k as int]));
                        assert forall|q: int| 0 <= q < acc@.len() implies pair_views((#[trigger] acc@[q]).1@) == variants_of(post, acc@[q].0@) by {
                            if q < k {
                                assert(acc@[q] == old_acc[q]);
                                lemma_seq_less_asym(acc@[q].0@, role@);
                            } else if q > k {
                                assert(acc@[q] == old_acc[q - 1]);
                                if k < old_acc.len() {
                                    if q - 1 > k {
                                        assert(seq_less(old_acc[k as int].0@, old_acc[q - 1].0@));
                                        lemma_seq_less_trans(role@, old_acc[k as int].0@, old_acc[q - 1].0@);
                                    }
                                    lemma_seq_less_asym(role@, old_acc[q - 1].0@);
                                }
                            }
                        }
                        assert forall|r: Seq<char>| #[trigger] variants_of(post, r).len() > 0 implies exists|q: int| 0 <= q < acc@.len() && acc@[q].0@ == r by {
                            if r == role@ {
                                assert(acc@[k as int].0@ == r);
                            } else {
                                assert(variants_of(post, r) == variants_of(pre, r));
                                let q = choose|q: int| 0 <= q < old_acc.len() && old_acc[q].0@ == r;
                                if q < k {
                                    assert(acc@[q] == old_acc[q]);
                                } else {
                                    assert(acc@[q + 1] == old_acc[q]);
                                }
                            }
                        }
                        assert(roles_sorted(acc@)) by {
                            assert forall|a: int, b: int| 0 <= a < b < acc@.len() implies seq_less(acc@[a].0@, acc@[b].0@) by {
                                if b < k {
                                    assert(acc@[a] == old_acc[a]);
                                    assert(acc@[b] == old_acc[b]);
                                } else if b == k {
                                    assert(acc@[a] == old_acc[a]);
                                } else if a == k {
                                    assert(acc@[b] == old_acc[b - 1]);
                                    if b - 1 > k {
                                        assert(seq_less(old_acc[k as int].0@, old_acc[b - 1].0@));
                                        lemma_seq_less_trans(role@, old_acc[k as int].0@, old_acc[b - 1].0@);
                                    }
                                } else if a < k {
                                    assert(acc@[a] == old_acc[a]);
                                    assert(acc@[b] == old_acc[b - 1]);
                                    if b - 1 > k {
                                        assert(seq_less(old_acc[k as int].0@, old_acc[b - 1].0@));
                                        lemma_seq_less_trans(role@, old_acc[k as int].0@, old_acc[b - 1].0@);
                                    }
                                    lemma_seq_less_trans(acc@[a].0@, role@, acc@[b].0@);
                                } else {
                                    assert(acc@[a] == old_acc[a - 1]);
                                    assert(acc@[b] == old_acc[b - 1]);
                                }
                            }
                        }
                    }
                }
            },
            None => {
                proof {
                    assert forall|r: Seq<char>| variants_of(post, r) == variants_of(pre, r) by {}
                }
            },
        }
        i = i + 1;
    }
    proof {
        assert(ops@.take(ops@.len() as int) =~= ops@);
    }
    let mut g: Vec<(String, Vec<(String, String)>)> = Vec::new();
    let ghost all = acc@;
    let mut acc = acc;
    let n: usize = acc.len();
    let mut taken: usize = 0;
    let ghost mut kept: Seq<int> = Seq::empty();
    while acc.len() > 0
        invariant
            all.len() == n,
            taken <= all.len(),
            acc@ == all.skip(taken as int),
            roles_sorted(all),
            forall|k: int| 0 <= k < all.len() ==> pair_views((#[trigger] all[k]).1@) == variants_of(ops@, all[k].0@),
            kept.len() == g@.len(),
            forall|k: int| 0 <= k < g@.len() ==> 0 <= #[trigger] kept[k] < taken && g@[k] == all[kept[k]] && g@[k].1@.len() > 1,
            forall|a: int, b: int| 0 <= a < b < kept.len() ==> kept[a] < kept[b],
            forall|q: int| 0 <= q < taken && (#[trigger] all[q]).1@.len() > 1 ==> exists|k: int| 0 <= k < kept.len() && kept[k] == q,
        decreases acc@.len(),
    {
        proof {
            assert(acc@[0] == all[taken as int]);
        }
        let entry = acc.remove(0);
        proof {
            assert(all.skip(taken as int).remove(0) =~= all.skip(taken + 1));
        }
        let ghost old_kept = kept;
        if entry.1.len() > 1 {
            g.push(entry);
            proof {
                kept = kept.push(taken as int);
            }
        }
        proof {
            assert forall|q: int| 0 <= q < taken + 1 && (#[trigger] all[q]).1@.len() > 1 implies exists|k: int| 0 <= k < kept.len() && kept[k] == q by {
                if q == taken {
                    assert(kept[kept.len() - 1] == q);
                } else {
                    let k = choose|k: int| 0 <= k < old_kept.len() && old_kept[k] == q;
                    assert(kept[k] == q);
                }
            }
        }
        taken = taken + 1;
    }
    proof {
        assert(taken == all.len()) by {
            assert(all.skip(taken as int).len() == 0);
        }
        assert(roles_sorted(g@)) by {
            assert forall|a: int, b: int| 0 <= a < b < g@.len() implies seq_less(g@[a].0@, g@[b].0@) by {
                assert(kept[a] < kept[b]);
            }
        }
        assert forall|role: Seq<char>| #[trigger] variants_of(ops@, role).len() > 1 implies exists|k: int| 0 <= k < g@.len() && g@[k].0@ == role by {
            let q = choose|q: int| 0 <= q < all.len() && all[q].0@ == role;
            assert(pair_views(all[q].1@).len() == all[q].1@.len());
            let k = choose|k: int| 0 <= k < kept.len() && kept[k] == q;
            assert(g@[k] == all[q]);
        }
        assert forall|k: int| 0 <= k < g@.len() implies pair_views((#[trigger] g@[k]).1@) == variants_of(ops@, g@[k].0@) && g@[k].1@.len() > 1 by {
            assert(g@[k] == all[kept[k]]);
        }
    }
    g
}


// ---------------------------------------------------------------------------
// Small decisions
// ---------------------------------------------------------------------------

/// Whether some entry of `v` is `w`.
pub open spec fn lists(v: Seq<String>, w: Seq<char>) -> bool {
    exists|k: int| 0 <= k < v.len() && (#[trigger] v[k])@ == w
}

pub fn lists_word(v: &Vec<String>, w: &str) -> (b: bool)
    ensures
        b == lists(v@, w@),
{
    let mut k: usize = 0;
    while k < v.len()
        invariant
            k <= v@.len(),
            forall|q: int| 0 <= q < k ==> (#[trigger] v@[q])@ != w@,
        decreases v@.len() - k,
    {
        if str_eq(v[k].as_str(), w) {
            return true;
        }
        k = k + 1;
    }
    false
}

/// Whether an operator defers its right operand.
pub fn lazy_rhs(op: &Operator) -> (b: bool)
    ensures
        b == lists(op.lazy@, "rhs"@),
{
    lists_word(&op.lazy, "rhs")
}

/// Whether an operator defers its left operand: assignment needs a place,
/// not a value, so the driver must not evaluate it.
pub fn lazy_lhs(op: &Operator) -> (b: bool)
    ensures
        b == lists(op.lazy@, "lhs"@),
{
    lists_word(&op.lazy, "lhs")
}

pub open spec fn short_circuit_spec(role: Seq<char>) -> Seq<char> {
    if role == "or_else"@ {
        "self.truthy(&lhs)"@
    } else if role == "coalesce"@ {
        "!self.is_null(&lhs)"@
    } else {
        "!self.truthy(&lhs)"@
    }
}

/// The condition, over `lhs`, on which a lazy role returns its left operand
/// without running the right one. `||` stops on a truthy left operand, the
/// opposite of `&&`.
pub fn short_circuit_when(role: &str) -> (s: &'static str)
    ensures
        s@ == short_circuit_spec(role@),
{
    if str_eq(role, "or_else") {
        "self.truthy(&lhs)"
    } else if str_eq(role, "coalesce") {
        "!self.is_null(&lhs)"
    } else {
        "!self.truthy(&lhs)"
    }
}

pub open spec fn compound_spec(literal: Seq<char>) -> Option<Seq<char>> {
    if literal == "+="@ {
        Some("add"@)
    } else if literal == "-="@ {
        Some("sub"@)
    } else if literal == "*="@ {
        Some("mul"@)
    } else if literal == "/="@ {
        Some("div"@)
    } else if literal == "%="@ {
        Some("rem"@)
    } else if literal == "<<="@ {
        Some("shl"@)
    } else if literal == ">>="@ {
        Some("shr"@)
    } else if literal == "&="@ {
        Some("bit_and"@)
    } else if literal == "|="@ {
        Some("bit_or"@)
    } else if literal == "^="@ {
        Some("bit_xor"@)
    } else {
        None
    }
}

/// The arithmetic role a compound assignment applies; `None` for plain `=`
/// and anything unrecognised.
pub fn compound_role(literal: &str) -> (r: Option<&'static str>)
    ensures
        match (r, compound_spec(literal@)) {
            (Some(a), Some(b)) => a@ == b,
            (None, None) => true,
            _ => false,
        },
{
    if str_eq(literal, "+=") {
        Some("add")
    } else if str_eq(literal, "-=") {
        Some("sub")
    } else if str_eq(literal, "*=") {
        Some("mul")
    } else if str_eq(literal, "/=") {
        Some("div")
    } else if str_eq(literal, "%=") {
        Some("rem")
    } else if str_eq(literal, "<<=") {
        Some("shl")
    } else if str_eq(literal, ">>=") {
        Some("shr")
    } else if str_eq(literal, "&=") {
        Some("bit_and")
    } else if str_eq(literal, "|=") {
        Some("bit_or")
    } else if str_eq(literal, "^=") {
        Some("bit_xor")
    } else {
        None
    }
}

/// Whether `g` lists `role`.
pub open spec fn grouped_has(g: Seq<(String, Vec<(String, String)>)>, role: Seq<char>) -> bool {
    exists|k: int| 0 <= k < g.len() && (#[trigger] g[k]).0@ == role
}

fn find_group(g: &Vec<(String, Vec<(String, String)>)>, role: &str) -> (r: Option<usize>)
    ensures
        r matches Some(k) ==> k < g@.len() && g@[k as int].0@ == role@,
        r is None <==> !grouped_has(g@, role@),
{
    let mut k: usize = 0;
    while k < g.len()
        invariant
            k <= g@.len(),
            forall|q: int| 0 <= q < k ==> (#[trigger] g@[q]).0@ != role@,
        decreases g@.len() - k,
    {
        if str_eq(g[k].0.as_str(), role) {
            return Some(k);
        }
        k = k + 1;
    }
    None
}

/// `RoleOp`, the discriminant enum of a grouped role.
pub open spec fn disc_name(role: Seq<char>) -> Seq<char> {
    pascal_name_spec(role) + "Op"@
}

fn disc_type(role: &str) -> (s: String)
    ensures
        s@ == disc_name(role@),
{
    let mut s = pascal_name(role);
    s.append("Op");
    s
}

pub open spec fn disc_arg_spec(e: Emitted, g: Seq<(String, Vec<(String, String)>)>) -> Seq<char> {
    if e.variant is Some && grouped_has(g, e.role@) {
        disc_name(e.role@) + "::"@ + e.variant->0@ + ", "@
    } else {
        Seq::empty()
    }
}

/// `RoleOp::Variant, ` when `e` passes a discriminant, else nothing.
pub fn discriminant_arg(e: &Emitted, grouped: &Vec<(String, Vec<(String, String)>)>) -> (s: String)
    ensures
        s@ == disc_arg_spec(*e, grouped@),
{
    match (&e.variant, find_group(grouped, e.role.as_str())) {
        (Some(variant), Some(_)) => {
            let mut s = disc_type(e.role.as_str());
            s.append("::");
            s.append(variant.as_str());
            s.append(", ");
            s
        },
        _ => String::new(),
    }
}

/// How std's `Debug` writes a string: quoted, with escapes.
pub uninterp spec fn debug_quoted(s: Seq<char>) -> Seq<char>;

/// std's `Debug` formatting of a `str`.
#[verifier::external_body]
pub(crate) fn debug_str(s: &str) -> (r: String)
    ensures
        r@ == debug_quoted(s@),
{
    format!("{:?}", s)
}


// ---------------------------------------------------------------------------
// Emission
// ---------------------------------------------------------------------------

pub const DISCRIMINANTS_HEAD: &'static str = "// ---------------------------------------------------------------------------\n// Grouped-role discriminants\n//\n// Several operators binding one role produce a single trait method taking\n// this enum, instead of six near-identical methods.\n// ---------------------------------------------------------------------------\n";

pub open spec fn variant_lines(vs: Seq<(Seq<char>, Seq<char>)>) -> Seq<char>
    decreases vs.len(),
{
    if vs.len() == 0 {
        Seq::empty()
    } else {
        variant_lines(vs.drop_last()) + "    /// `"@ + vs.last().1 + "`\n    "@ + vs.last().0 + ",\n"@
    }
}

pub open spec fn spelling_lines(name: Seq<char>, vs: Seq<(Seq<char>, Seq<char>)>) -> Seq<char>
    decreases vs.len(),
{
    if vs.len() == 0 {
        Seq::empty()
    } else {
        spelling_lines(name, vs.drop_last()) + "            "@ + name + "::"@ + vs.last().0 + " => "@
            + debug_quoted(vs.last().1) + ",\n"@
    }
}

/// The enum of one grouped role, and its `spelling`.
pub open spec fn group_text(role: Seq<char>, vs: Seq<(Seq<char>, Seq<char>)>) -> Seq<char> {
    let name = disc_name(role);
    "\n#[derive(Clone, Copy, PartialEq, Eq, Debug)]\npub enum "@ + name + " {\n"@ + variant_lines(vs)
        + "}\n\nimpl "@ + name
        + " {\n    /// The operator as written in the source language.\n    pub fn spelling(self) -> &'static str {\n        match self {\n"@
        + spelling_lines(name, vs) + "        }\n    }\n}\n"@
}

pub open spec fn groups_text(g: Seq<(String, Vec<(String, String)>)>) -> Seq<char>
    decreases g.len(),
{
    if g.len() == 0 {
        Seq::empty()
    } else {
        groups_text(g.drop_last()) + group_text(g.last().0@, pair_views(g.last().1@))
    }
}

pub open spec fn discriminants_spec(g: Seq<(String, Vec<(String, String)>)>) -> Seq<char> {
    if g.len() == 0 {
        Seq::empty()
    } else {
        DISCRIMINANTS_HEAD@ + groups_text(g) + "\n"@
    }
}

fn push_group(out: &mut String, role: &str, vs: &Vec<(String, String)>)
    ensures
        final(out)@ == old(out)@ + group_text(role@, pair_views(vs@)),
{
    let name = disc_type(role);
    let mut variants = String::new();
    let mut spellings = String::new();
    let mut k: usize = 0;
    while k < vs.len()
        invariant
            k <= vs@.len(),
            variants@ == variant_lines(pair_views(vs@.take(k as int))),
            spellings@ == spelling_lines(name@, pair_views(vs@.take(k as int))),
        decreases vs@.len() - k,
    {
        variants.append("    /// `");
        variants.append(vs[k].1.as_str());
        variants.append("`\n    ");
        variants.append(vs[k].0.as_str());
        variants.append(",\n");
        spellings.append("            ");
        spellings.append(name.as_str());
        spellings.append("::");
        spellings.append(vs[k].0.as_str());
        spellings.append(" => ");
        spellings.append(debug_str(vs[k].1.as_str()).as_str());
        spellings.append(",\n");
        proof {
            assert(pair_views(vs@.take(k + 1)).drop_last() =~= pair_views(vs@.take(k as int)));
        }
        k = k + 1;
    }
    proof {
        assert(vs@.take(vs@.len() as int) =~= vs@);
    }
    out.append("\n#[derive(Clone, Copy, PartialEq, Eq, Debug)]\npub enum ");
    out.append(name.as_str());
    out.append(" {\n");
    out.append(variants.as_str());
    out.append("}\n\nimpl ");
    out.append(name.as_str());
    out.append(" {\n    /// The operator as written in the source language.\n    pub fn spelling(self) -> &'static str {\n        match self {\n");
    out.append(spellings.as_str());
    out.append("        }\n    }\n}\n");
}

/// The discriminant enum of each grouped role, with its `spelling`; nothing
/// when no role is grouped.
pub fn emit_discriminants(out: &mut String, ops: &[Emitted])
    ensures
        exists|g: Seq<(String, Vec<(String, String)>)>| grouped_spec(ops@, g) && final(out)@ == old(out)@
            + discriminants_spec(g),
{
    let grouped = grouped_roles(ops);
    if grouped.len() == 0 {
        proof {
            assert(old(out)@ + discriminants_spec(grouped@) =~= old(out)@);
        }
        return;
    }
    let ghost start = out@;
    out.append(DISCRIMINANTS_HEAD);
    let mut k: usize = 0;
    while k < grouped.len()
        invariant
            k <= grouped@.len(),
            out@ == start + DISCRIMINANTS_HEAD@ + groups_text(grouped@.take(k as int)),
        decreases grouped@.len() - k,
    {
        push_group(out, grouped[k].0.as_str(), &grouped[k].1);
        proof {
            assert(grouped@.take(k + 1).drop_last() =~= grouped@.take(k as int));
        }
        k = k + 1;
    }
    out.append("\n");
    proof {
        assert(grouped@.take(grouped@.len() as int) =~= grouped@);
    }
}


pub open spec fn is_unary(f: Fixity) -> bool {
    f == Fixity::Prefix || f == Fixity::Postfix
}

pub open spec fn disc_param(e: Emitted, g: Seq<(String, Vec<(String, String)>)>) -> Seq<char> {
    if grouped_has(g, e.role@) {
        "op: "@ + disc_name(e.role@) + ", "@
    } else {
        Seq::empty()
    }
}

pub const LAZY_METHOD_DOC: &'static str = " — **lazy in its right operand**.\n    ///\n    /// `rhs` is unevaluated. Running it is what evaluates it; not\n    /// running it is what makes this short-circuit.\n    ///\n    /// Defaulted to unsupported rather than to truthiness, because\n    /// only a host with values can answer that. An interpreter gets\n    /// the standard body from `nh_value_operators!`; a compiler\n    /// writes its own, emitting a jump.\n    fn ";

pub open spec fn unary_method_spec(e: Emitted, m: Seq<char>, arg: Seq<char>) -> Seq<char> {
    "\n    /// `"@ + e.op.literal@ + "` ("@ + (if e.tier.fixity == Fixity::Prefix {
        "prefix"@
    } else {
        "postfix"@
    }) + ").\n    fn "@ + m + "(&mut self, "@ + arg
        + "operand: Self::Out) -> Result<Self::Out> {\n        let _ = operand;\n        Err(Error::unsupported(\""@
        + e.role@ + "\"))\n    }\n"@
}

pub open spec fn lazy_method_spec(e: Emitted, m: Seq<char>, arg: Seq<char>) -> Seq<char> {
    "\n    /// `"@ + e.op.literal@ + "`"@ + LAZY_METHOD_DOC@ + m
        + "(\n        &mut self,\n        lhs: Self::Out,\n        "@ + arg
        + "rhs: Rc<Expr>,\n        cx: &mut Ctx,\n    ) -> Result<Self::Out>\n    where\n        Self: Handlers + Sized,\n    {\n        let _ = (&lhs, &rhs, &mut *cx);\n        Err(Error::unsupported(\""@
        + e.op.literal@ + "\"))\n    }\n"@
}

pub open spec fn binary_method_spec(e: Emitted, m: Seq<char>, arg: Seq<char>) -> Seq<char> {
    "\n    /// `"@ + e.op.literal@ + "`\n    fn "@ + m + "(&mut self, lhs: Self::Out, "@ + arg
        + "rhs: Self::Out) -> Result<Self::Out> {\n        let _ = (lhs, rhs);\n        Err(Error::unsupported(\""@
        + e.role@ + "\"))\n    }\n"@
}

/// The defaulted trait method of one role.
pub open spec fn method_spec(e: Emitted, g: Seq<(String, Vec<(String, String)>)>) -> Seq<char> {
    let m = ident_spec(e.role@);
    let arg = disc_param(e, g);
    if is_unary(e.tier.fixity) {
        unary_method_spec(e, m, arg)
    } else if lists(e.op.lazy@, "lhs"@) {
        Seq::empty()
    } else if lists(e.op.lazy@, "rhs"@) {
        lazy_method_spec(e, m, arg)
    } else {
        binary_method_spec(e, m, arg)
    }
}

fn disc_param_of(e: &Emitted, grouped: &Vec<(String, Vec<(String, String)>)>) -> (s: String)
    ensures
        s@ == disc_param(*e, grouped@),
{
    match find_group(grouped, e.role.as_str()) {
        Some(_) => {
            let mut s = owned("op: ");
            s.append(disc_type(e.role.as_str()).as_str());
            s.append(", ");
            s
        },
        None => String::new(),
    }
}

fn unary_method(e: &Emitted, m: &str, arg: &str) -> (t: String)
    ensures
        t@ == unary_method_spec(*e, m@, arg@),
{
    let mut t = owned("\n    /// `");
    t.append(e.op.literal.as_str());
    t.append("` (");
    t.append(if e.tier.fixity == Fixity::Prefix { "prefix" } else { "postfix" });
    t.append(").\n    fn ");
    t.append(m);
    t.append("(&mut self, ");
    t.append(arg);
    t.append("operand: Self::Out) -> Result<Self::Out> {\n        let _ = operand;\n        Err(Error::unsupported(\"");
    t.append(e.role.as_str());
    t.append("\"))\n    }\n");
    t
}

fn lazy_method(e: &Emitted, m: &str, arg: &str) -> (t: String)
    ensures
        t@ == lazy_method_spec(*e, m@, arg@),
{
    let mut t = owned("\n    /// `");
    t.append(e.op.literal.as_str());
    t.append("`");
    t.append(LAZY_METHOD_DOC);
    t.append(m);
    t.append("(\n        &mut self,\n        lhs: Self::Out,\n        ");
    t.append(arg);
    t.append("rhs: Rc<Expr>,\n        cx: &mut Ctx,\n    ) -> Result<Self::Out>\n    where\n        Self: Handlers + Sized,\n    {\n        let _ = (&lhs, &rhs, &mut *cx);\n        Err(Error::unsupported(\"");
    t.append(e.op.literal.as_str());
    t.append("\"))\n    }\n");
    t
}

fn binary_method(e: &Emitted, m: &str, arg: &str) -> (t: String)
    ensures
        t@ == binary_method_spec(*e, m@, arg@),
{
    let mut t = owned("\n    /// `");
    t.append(e.op.literal.as_str());
    t.append("`\n    fn ");
    t.append(m);
    t.append("(&mut self, lhs: Self::Out, ");
    t.append(arg);
    t.append("rhs: Self::Out) -> Result<Self::Out> {\n        let _ = (lhs, rhs);\n        Err(Error::unsupported(\"");
    t.append(e.role.as_str());
    t.append("\"))\n    }\n");
    t
}

fn emit_method(out: &mut String, e: &Emitted, grouped: &Vec<(String, Vec<(String, String)>)>)
    ensures
        final(out)@ == old(out)@ + method_spec(*e, grouped@),
{
    let m = ident(e.role.as_str());
    let arg = disc_param_of(e, grouped);
    let f = e.tier.fixity;
    if f == Fixity::Prefix || f == Fixity::Postfix {
        out.append(unary_method(e, m.as_str(), arg.as_str()).as_str());
    } else if lazy_lhs(e.op) {
        // Emitted once by `emit_assignment`: the whole tier shares one
        // place-taking signature.
        proof {
            assert(old(out)@ + Seq::<char>::empty() =~= old(out)@);
        }
    } else if lazy_rhs(e.op) {
        out.append(lazy_method(e, m.as_str(), arg.as_str()).as_str());
    } else {
        out.append(binary_method(e, m.as_str(), arg.as_str()).as_str());
    }
}

pub const ASSIGN_METHODS: &'static str = "\n    /// Stores `value` at `place`.\n    ///\n    /// `place` arrives with its parts already evaluated, so a subscript\n    /// with a side effect ran exactly once before this was called.\n    fn assign(\n        &mut self,\n        place: Place<'_, Self::Out>,\n        value: Self::Out,\n    ) -> Result<Self::Out> {\n        let _ = (place, value);\n        Err(Error::unsupported(\"assignment\"))\n    }\n\n    /// Reads the current value at `place`, for compound assignment.\n    fn place_read(&mut self, place: &Place<'_, Self::Out>) -> Result<Self::Out> {\n        let _ = place;\n        Err(Error::unsupported(\"reading an assignment target\"))\n    }\n";

pub const COMPOUND_HEAD: &'static str = "\n    /// `+=`, `-=`, and friends.\n    ///\n    /// Defaulted: read the place, apply the operator's arithmetic role,\n    /// store the result. Implement `assign` and `place_read` and this\n    /// works for the whole family.\n    fn compound_assign(\n        &mut self,\n        place: Place<'_, Self::Out>,\n        op: ";

pub const COMPOUND_MID: &'static str = ",\n        rhs: Self::Out,\n    ) -> Result<Self::Out> {\n        let current = self.place_read(&place)?;\n        let updated = match op {\n";

pub const COMPOUND_TAIL: &'static str = "        };\n        self.assign(place, updated)\n    }\n";

pub open spec fn compound_arm(d: Seq<char>, v: (Seq<char>, Seq<char>)) -> Seq<char> {
    match compound_spec(v.1) {
        Some(r) => "            "@ + d + "::"@ + v.0 + " => self."@ + ident_spec(r) + "(current, rhs)?,\n"@,
        None => "            // `"@ + v.1 + "` is plain assignment: the old value is discarded.\n            "@ + d
            + "::"@ + v.0 + " => rhs,\n"@,
    }
}

pub open spec fn compound_arms(d: Seq<char>, vs: Seq<(Seq<char>, Seq<char>)>) -> Seq<char>
    decreases vs.len(),
{
    if vs.len() == 0 {
        Seq::empty()
    } else {
        compound_arms(d, vs.drop_last()) + compound_arm(d, vs.last())
    }
}

fn compound_arm_text(d: &str, variant: &str, literal: &str) -> (t: String)
    ensures
        t@ == compound_arm(d@, (variant@, literal@)),
{
    match compound_role(literal) {
        Some(r) => {
            let mut t = owned("            ");
            t.append(d);
            t.append("::");
            t.append(variant);
            t.append(" => self.");
            t.append(ident(r).as_str());
            t.append("(current, rhs)?,\n");
            t
        },
        None => {
            let mut t = owned("            // `");
            t.append(literal);
            t.append("` is plain assignment: the old value is discarded.\n            ");
            t.append(d);
            t.append("::");
            t.append(variant);
            t.append(" => rhs,\n");
            t
        },
    }
}

/// The index of the first operator lazy in its left operand, if any.
pub open spec fn first_assign(ops: Seq<Emitted>) -> int
    decreases ops.len(),
{
    if ops.len() == 0 {
        -1
    } else if first_assign(ops.drop_last()) >= 0 {
        first_assign(ops.drop_last())
    } else if lists(ops.last().op.lazy@, "lhs"@) {
        ops.len() - 1
    } else {
        -1
    }
}

/// The variants listed for `role` in `g`, if it is listed.
pub open spec fn group_of(g: Seq<(String, Vec<(String, String)>)>, role: Seq<char>) -> Seq<(Seq<char>, Seq<char>)> {
    pair_views(g[choose|k: int| 0 <= k < g.len() && (#[trigger] g[k]).0@ == role].1@)
}

pub open spec fn assignment_spec(ops: Seq<Emitted>, g: Seq<(String, Vec<(String, String)>)>) -> Seq<char> {
    let a = first_assign(ops);
    if a < 0 {
        Seq::empty()
    } else {
        let role = ops[a].role@;
        if grouped_has(g, role) {
            ASSIGN_METHODS@ + COMPOUND_HEAD@ + disc_name(role) + COMPOUND_MID@ + compound_arms(
                disc_name(role),
                group_of(g, role),
            ) + COMPOUND_TAIL@
        } else {
            ASSIGN_METHODS@
        }
    }
}

fn find_assign(ops: &[Emitted]) -> (r: Option<usize>)
    ensures
        r matches Some(k) ==> k < ops@.len() && k as int == first_assign(ops@),
        r is None ==> first_assign(ops@) < 0,
{
    let mut k: usize = 0;
    while k < ops.len()
        invariant
            k <= ops@.len(),
            first_assign(ops@.take(k as int)) < 0,
        decreases ops@.len() - k,
    {
        proof {
            assert(ops@.take(k + 1).drop_last() =~= ops@.take(k as int));
        }
        if lazy_lhs(ops[k].op) {
            proof {
                lemma_first_assign_prefix(ops@, k + 1);
            }
            return Some(k);
        }
        k = k + 1;
    }
    proof {
        assert(ops@.take(ops@.len() as int) =~= ops@);
    }
    None
}

proof fn lemma_first_assign_prefix(ops: Seq<Emitted>, n: int)
    requires
        0 <= n <= ops.len(),
        first_assign(ops.take(n)) >= 0,
    ensures
        first_assign(ops) == first_assign(ops.take(n)),
    decreases ops.len() - n,
{
    if n < ops.len() {
        assert(ops.take(n + 1).drop_last() =~= ops.take(n));
        lemma_first_assign_prefix(ops, n + 1);
    } else {
        assert(ops.take(n) =~= ops);
    }
}

fn emit_assignment(out: &mut String, ops: &[Emitted], grouped: &Vec<(String, Vec<(String, String)>)>)
    requires
        roles_sorted(grouped@),
    ensures
        final(out)@ == old(out)@ + assignment_spec(ops@, grouped@),
{
    let a = match find_assign(ops) {
        Some(a) => a,
        None => {
            proof {
                assert(old(out)@ + Seq::<char>::empty() =~= old(out)@);
            }
            return;
        },
    };
    let role = ops[a].role.as_str();
    out.append(ASSIGN_METHODS);
    match find_group(grouped, role) {
        Some(gk) => {
            let d = disc_type(role);
            out.append(COMPOUND_HEAD);
            out.append(d.as_str());
            out.append(COMPOUND_MID);
            let vs = &grouped[gk].1;
            let ghost chosen = choose|k: int| 0 <= k < grouped@.len() && (#[trigger] grouped@[k]).0@ == role@;
            proof {
                // Listed roles are distinct, so the listing found is the one chosen.
                assert(grouped@[gk as int].0@ == role@);
                if chosen != gk as int {
                    if chosen < gk as int {
                        assert(seq_less(grouped@[chosen].0@, grouped@[gk as int].0@));
                    } else {
                        assert(seq_less(grouped@[gk as int].0@, grouped@[chosen].0@));
                    }
                    lemma_seq_less_asym(role@, role@);
                }
                assert(group_of(grouped@, role@) == pair_views(vs@));
            }
            let mut k: usize = 0;
            let ghost start = out@;
            while k < vs.len()
                invariant
                    k <= vs@.len(),
                    out@ == start + compound_arms(d@, pair_views(vs@.take(k as int))),
                decreases vs@.len() - k,
            {
                out.append(compound_arm_text(d.as_str(), vs[k].0.as_str(), vs[k].1.as_str()).as_str());
                proof {
                    assert(pair_views(vs@.take(k + 1)).drop_last() =~= pair_views(vs@.take(k as int)));
                }
                k = k + 1;
            }
            proof {
                assert(vs@.take(vs@.len() as int) =~= vs@);
            }
            out.append(COMPOUND_TAIL);
        },
        None => {},
    }
}


pub const TRAIT_HEAD: &'static str = "/// Operator semantics.\n///\n/// Every method is defaulted to an `unsupported` error, so a language\n/// implements only the operators it actually has and gets the rest of the\n/// table's parsing, precedence, and short-circuiting for free.\npub trait Operators: Semantics {\n";

/// The operators of `ops` whose role and fixity no earlier one has.
pub open spec fn first_per_role(ops: Seq<Emitted>) -> Seq<Emitted>
    decreases ops.len(),
{
    if ops.len() == 0 {
        Seq::empty()
    } else {
        let prev = first_per_role(ops.drop_last());
        if exists|j: int| 0 <= j < ops.len() - 1 && (#[trigger] ops[j]).role@ == ops.last().role@ && ops[j].tier.fixity
            == ops.last().tier.fixity {
            prev
        } else {
            prev.push(ops.last())
        }
    }
}

pub open spec fn methods_spec(es: Seq<Emitted>, g: Seq<(String, Vec<(String, String)>)>) -> Seq<char>
    decreases es.len(),
{
    if es.len() == 0 {
        Seq::empty()
    } else {
        methods_spec(es.drop_last(), g) + method_spec(es.last(), g)
    }
}

pub open spec fn trait_spec(ops: Seq<Emitted>, g: Seq<(String, Vec<(String, String)>)>) -> Seq<char> {
    TRAIT_HEAD@ + (if ops.len() == 0 {
        "    // This grammar declares no operators.\n"@
    } else {
        ""@
    }) + methods_spec(first_per_role(ops), g) + assignment_spec(ops, g) + "}\n\n"@
}

/// Whether an earlier operator of `ops` than `k` has the role and fixity of
/// `ops[k]`.
fn role_seen(ops: &[Emitted], k: usize) -> (b: bool)
    requires
        k < ops@.len(),
    ensures
        b == exists|j: int| 0 <= j < k && (#[trigger] ops@[j]).role@ == ops@[k as int].role@ && ops@[j].tier.fixity
            == ops@[k as int].tier.fixity,
{
    let mut j: usize = 0;
    while j < k
        invariant
            j <= k < ops@.len(),
            forall|q: int| 0 <= q < j ==> !((#[trigger] ops@[q]).role@ == ops@[k as int].role@ && ops@[q].tier.fixity == ops@[k as int].tier.fixity),
        decreases k - j,
    {
        if str_eq(ops[j].role.as_str(), ops[k].role.as_str()) && ops[j].tier.fixity == ops[k].tier.fixity {
            return true;
        }
        j = j + 1;
    }
    false
}

/// The `Operators` trait: one defaulted method per role and fixity, and the
/// assignment methods when an operator is lazy in its left operand.
pub fn emit_trait(out: &mut String, ops: &[Emitted])
    ensures
        exists|g: Seq<(String, Vec<(String, String)>)>| grouped_spec(ops@, g) && final(out)@ == old(out)@
            + trait_spec(ops@, g),
{
    let grouped = grouped_roles(ops);
    let ghost start = out@;
    out.append(TRAIT_HEAD);
    if ops.len() == 0 {
        out.append("    // This grammar declares no operators.\n");
    } else {
        out.append("");
    }
    let ghost mid = out@;
    let mut k: usize = 0;
    while k < ops.len()
        invariant
            k <= ops@.len(),
            out@ == mid + methods_spec(first_per_role(ops@.take(k as int)), grouped@),
        decreases ops@.len() - k,
    {
        let seen = role_seen(ops, k);
        proof {
            let t = ops@.take(k + 1);
            assert(t.drop_last() =~= ops@.take(k as int));
            assert(t.last() == ops@[k as int]);
            assert forall|j: int| 0 <= j < k implies #[trigger] t[j] == ops@[j] by {}
        }
        let ghost prev = first_per_role(ops@.take(k as int));
        proof {
            let t = ops@.take(k + 1);
            if seen {
                let j = choose|j: int| 0 <= j < k && (#[trigger] ops@[j]).role@ == ops@[k as int].role@ && ops@[j].tier.fixity == ops@[k as int].tier.fixity;
                assert(t[j].role@ == t.last().role@ && t[j].tier.fixity == t.last().tier.fixity);
                assert(first_per_role(t) == prev);
            } else {
                assert(!exists|j: int| 0 <= j < t.len() - 1 && (#[trigger] t[j]).role@ == t.last().role@ && t[j].tier.fixity == t.last().tier.fixity);
                assert(first_per_role(t) == prev.push(ops@[k as int]));
                assert(first_per_role(t).drop_last() =~= prev);
            }
        }
        if !seen {
            emit_method(out, &ops[k], &grouped);
        }
        k = k + 1;
    }
    proof {
        assert(ops@.take(ops@.len() as int) =~= ops@);
    }
    emit_assignment(out, ops, &grouped);
    out.append("}\n\n");
}


// ---------------------------------------------------------------------------
// The driver
// ---------------------------------------------------------------------------

/// The operator whose reading `op_info` gives for `rule`: the first with
/// that rule, replaced by a later infix one when the first is unary, since
/// the builder tries the prefix reading only where an operand is expected.
pub open spec fn arm_of(ops: Seq<Emitted>, rule: Seq<char>) -> int
    decreases ops.len(),
{
    if ops.len() == 0 {
        -1
    } else {
        let prev = arm_of(ops.drop_last(), rule);
        let e = ops.last();
        if e.rule@ != rule {
            prev
        } else if prev < 0 {
            ops.len() - 1
        } else if is_unary(ops[prev].tier.fixity) && !is_unary(e.tier.fixity) {
            ops.len() - 1
        } else {
            prev
        }
    }
}

proof fn lemma_arm_of_range(ops: Seq<Emitted>, rule: Seq<char>)
    ensures
        -1 <= arm_of(ops, rule) < ops.len(),
        arm_of(ops, rule) >= 0 ==> ops[arm_of(ops, rule)].rule@ == rule,
        arm_of(ops, rule) < 0 <==> !exists|k: int| 0 <= k < ops.len() && (#[trigger] ops[k]).rule@ == rule,
    decreases ops.len(),
{
    if ops.len() > 0 {
        lemma_arm_of_range(ops.drop_last(), rule);
        let prev = arm_of(ops.drop_last(), rule);
        if prev >= 0 {
            assert(ops[prev] == ops.drop_last()[prev]);
        }
        assert forall|k: int| 0 <= k < ops.len() - 1 implies (#[trigger] ops[k]) == ops.drop_last()[k] by {}
        if arm_of(ops, rule) < 0 && exists|k: int| 0 <= k < ops.len() && (#[trigger] ops[k]).rule@ == rule {
            let k = choose|k: int| 0 <= k < ops.len() && (#[trigger] ops[k]).rule@ == rule;
            if k < ops.len() - 1 {
                assert(ops.drop_last()[k].rule@ == rule);
            }
        }
    }
}

/// One `(rule, operator index)` per distinct rule, in rule order.
pub open spec fn arms_spec(ops: Seq<Emitted>, arms: Seq<(String, usize)>) -> bool {
    &&& roles_sorted(arms)
    &&& forall|k: int| 0 <= k < arms.len() ==> (#[trigger] arms[k]).1 as int == arm_of(ops, arms[k].0@)
    &&& forall|q: int| 0 <= q < ops.len() ==> exists|k: int| 0 <= k < arms.len() && arms[k].0@ == (#[trigger] ops[q]).rule@
}

fn driver_arms(ops: &[Emitted]) -> (arms: Vec<(String, usize)>)
    ensures
        arms_spec(ops@, arms@),
{
    let mut arms: Vec<(String, usize)> = Vec::new();
    let mut i: usize = 0;
    while i < ops.len()
        invariant
            i <= ops@.len(),
            roles_sorted(arms@),
            forall|k: int| 0 <= k < arms@.len() ==> (#[trigger] arms@[k]).1 as int == arm_of(ops@.take(i as int), arms@[k].0@),
            forall|q: int| 0 <= q < i ==> exists|k: int| 0 <= k < arms@.len() && arms@[k].0@ == (#[trigger] ops@[q]).rule@,
        decreases ops@.len() - i,
    {
        let e = &ops[i];
        let ghost pre = ops@.take(i as int);
        let ghost post = ops@.take(i + 1);
        proof {
            assert(post.drop_last() =~= pre);
            assert(post.last() == *e);
            assert forall|k: int| 0 <= k < i implies #[trigger] post[k] == ops@[k] by {}
        }
        let rule = e.rule.as_str();
        let mut k: usize = 0;
        while k < arms.len() && str_less(arms[k].0.as_str(), rule)
            invariant
                k <= arms@.len(),
                forall|q: int| 0 <= q < k ==> seq_less((#[trigger] arms@[q]).0@, rule@),
            decreases arms@.len() - k,
        {
            k = k + 1;
        }
        let ghost old_arms = arms@;
        if k < arms.len() && str_eq(arms[k].0.as_str(), rule) {
            let cur = arms[k].1;
            proof {
                lemma_arm_of_range(pre, rule@);
                assert(cur < i);
            }
            let replace = (ops[cur].tier.fixity == Fixity::Prefix || ops[cur].tier.fixity == Fixity::Postfix)
                && !(e.tier.fixity == Fixity::Prefix || e.tier.fixity == Fixity::Postfix);
            if replace {
                let name = owned(arms[k].0.as_str());
                arms.set(k, (name, i));
            }
            proof {
                assert(pre[cur as int] == ops@[cur as int]);
                assert forall|q: int| 0 <= q < arms@.len() implies (#[trigger] arms@[q]).1 as int == arm_of(post, arms@[q].0@) by {
                    if q != k {
                        assert(arms@[q] == old_arms[q]);
                        if arms@[q].0@ == rule@ {
                            if q < k {
                                assert(seq_less(old_arms[q].0@, old_arms[k as int].0@));
                            } else {
                                assert(seq_less(old_arms[k as int].0@, old_arms[q].0@));
                            }
                            lemma_seq_less_asym(rule@, rule@);
                        }
                    }
                }
                assert(roles_sorted(arms@)) by {
                    assert forall|a: int, b: int| 0 <= a < b < arms@.len() implies seq_less(arms@[a].0@, arms@[b].0@) by {
                        assert(arms@[a].0@ == old_arms[a].0@);
                        assert(arms@[b].0@ == old_arms[b].0@);
                    }
                }
                assert forall|q: int| 0 <= q < i + 1 implies exists|m: int| 0 <= m < arms@.len() && arms@[m].0@ == (#[trigger] ops@[q]).rule@ by {
                    if q == i {
                        assert(arms@[k as int].0@ == ops@[q].rule@);
                    } else {
                        let m = choose|m: int| 0 <= m < old_arms.len() && old_arms[m].0@ == ops@[q].rule@;
                        assert(arms@[m].0@ == old_arms[m].0@);
                    }
                }
            }
        } else {
            proof {
                if k < old_arms.len() {
                    assert(!seq_less(old_arms[k as int].0@, rule@));
                    lemma_seq_less_total(old_arms[k as int].0@, rule@);
                }
                lemma_arm_of_range(pre, rule@);
                if exists|q: int| 0 <= q < pre.len() && (#[trigger] pre[q]).rule@ == rule@ {
                    let q = choose|q: int| 0 <= q < pre.len() && (#[trigger] pre[q]).rule@ == rule@;
                    assert(ops@[q] == pre[q]);
                    let m = choose|m: int| 0 <= m < old_arms.len() && old_arms[m].0@ == ops@[q].rule@;
                    if m < k {
                        lemma_seq_less_asym(rule@, rule@);
                    } else if m > k {
                        assert(seq_less(old_arms[k as int].0@, old_arms[m].0@));
                        lemma_seq_less_trans(rule@, old_arms[k as int].0@, rule@);
                        lemma_seq_less_asym(rule@, rule@);
                    }
                }
                assert(arm_of(pre, rule@) < 0);
            }
            arms.insert(k, (owned(rule), i));
            proof {
                assert forall|q: int| 0 <= q < arms@.len() implies (#[trigger] arms@[q]).1 as int == arm_of(post, arms@[q].0@) by {
                    if q < k {
                        assert(arms@[q] == old_arms[q]);
                        lemma_seq_less_asym(arms@[q].0@, rule@);
                    } else if q > k {
                        assert(arms@[q] == old_arms[q - 1]);
                        if k < old_arms.len() {
                            if q - 1 > k {
                                assert(seq_less(old_arms[k as int].0@, old_arms[q - 1].0@));
                                lemma_seq_less_trans(rule@, old_arms[k as int].0@, old_arms[q - 1].0@);
                            }
                            lemma_seq_less_asym(rule@, old_arms[q - 1].0@);
                        }
                    }
                }
                assert(roles_sorted(arms@)) by {
                    assert forall|a: int, b: int| 0 <= a < b < arms@.len() implies seq_less(arms@[a].0@, arms@[b].0@) by {
                        if b < k {
                            assert(arms@[a] == old_arms[a]);
                            assert(arms@[b] == old_arms[b]);
                        } else if b == k {
                            assert(arms@[a] == old_arms[a]);
                        } else if a == k {
                            assert(arms@[b] == old_arms[b - 1]);
                            if b - 1 > k {
                                assert(seq_less(old_arms[k as int].0@, old_arms[b - 1].0@));
                                lemma_seq_less_trans(rule@, old_arms[k as int].0@, old_arms[b - 1].0@);
                            }
                        } else if a < k {
                            assert(arms@[a] == old_arms[a]);
                            assert(arms@[b] == old_arms[b - 1]);
                            if b - 1 > k {
                                assert(seq_less(old_arms[k as int].0@, old_arms[b - 1].0@));
                                lemma_seq_less_trans(rule@, old_arms[k as int].0@, old_arms[b - 1].0@);
                            }
                            lemma_seq_less_trans(arms@[a].0@, rule@, arms@[b].0@);
                        } else {
                            assert(arms@[a] == old_arms[a - 1]);
                            assert(arms@[b] == old_arms[b - 1]);
                        }
                    }
                }
                assert forall|q: int| 0 <= q < i + 1 implies exists|m: int| 0 <= m < arms@.len() && arms@[m].0@ == (#[trigger] ops@[q]).rule@ by {
                    if q == i {
                        assert(arms@[k as int].0@ == ops@[q].rule@);
                    } else {
                        let m = choose|m: int| 0 <= m < old_arms.len() && old_arms[m].0@ == ops@[q].rule@;
                        if m < k {
                            assert(arms@[m] == old_arms[m]);
                        } else {
                            assert(arms@[m + 1] == old_arms[m]);
                        }
                    }
                }
            }
        }
        i = i + 1;
    }
    proof {
        assert(ops@.take(ops@.len() as int) =~= ops@);
    }
    arms
}


pub const DRIVER_HEAD: &'static str = "// ---------------------------------------------------------------------------\n// The operator driver\n// ---------------------------------------------------------------------------\n\n/// Precedence, fixity, and associativity per operator rule.\n///\n/// Precedences come from the resolved table's tier order, so this and\n/// `nh explain` agree by construction.\npub fn op_info(rule: Rule) -> Option<OpInfo> {\n    let info = |precedence, fixity, assoc| Some(OpInfo { precedence, fixity, assoc });\n    match rule {\n";

pub const NO_OP_INFO: &'static str = "/// This grammar declares no operators.\npub fn op_info(rule: Rule) -> Option<OpInfo> {\n    let _ = rule;\n    None\n}\n\n";

pub const MATCH_TAIL: &'static str = "        _ => None,\n    }\n}\n\n";

pub const NO_PREFIX_INFO: &'static str = "/// This grammar declares no prefix operators.\npub fn prefix_info(rule: Rule) -> Option<OpInfo> {\n    let _ = rule;\n    None\n}\n\n";

pub const PREFIX_HEAD: &'static str = "/// The prefix reading of an operator rule.\n///\n/// A spelling like `-` is both `sub` and `neg`, and the lowerer emits one\n/// rule for it. The builder consults this where an operand is expected and\n/// [`op_info`] everywhere else.\npub fn prefix_info(rule: Rule) -> Option<OpInfo> {\n    let info = |precedence| Some(OpInfo {\n        precedence,\n        fixity: Fixity::Prefix,\n        assoc: Assoc::Right,\n    });\n    match rule {\n";

pub const EVAL_HEAD: &'static str = "/// Evaluates a folded expression.\n///\n/// The folding already happened, once, when the AST was built — so a\n/// loop that re-tests its condition is not re-folding it every pass.\npub fn eval_expr<H: Handlers>(\n    host: &mut H,\n    node: &Expr,\n    cx: &mut Ctx,\n) -> Result<H::Out> {\n    match node {\n        Expr::Atom(a) => eval_";

pub const EVAL_TAIL: &'static str = "    }\n}\n\nimpl Eval for Expr {\n    fn eval<H: Handlers>(&self, host: &mut H, cx: &mut Ctx) -> Result<H::Out> {\n        eval_expr(host, self, cx)\n    }\n}\n\n";

pub open spec fn fixity_assoc(f: Fixity) -> Seq<char> {
    match f {
        Fixity::Left => "Fixity::Infix, Assoc::Left"@,
        Fixity::Right => "Fixity::Infix, Assoc::Right"@,
        Fixity::Prefix => "Fixity::Prefix, Assoc::Right"@,
        Fixity::Postfix => "Fixity::Postfix, Assoc::Left"@,
    }
}

pub open spec fn info_arms(ops: Seq<Emitted>, arms: Seq<(String, usize)>) -> Seq<char>
    decreases arms.len(),
{
    if arms.len() == 0 {
        Seq::empty()
    } else {
        let e = ops[arms.last().1 as int];
        info_arms(ops, arms.drop_last()) + "        Rule::"@ + arms.last().0@ + " => info("@ + decimal(
            e.precedence as nat,
        ) + ", "@ + fixity_assoc(e.tier.fixity) + "),\n"@
    }
}

pub open spec fn op_info_spec(ops: Seq<Emitted>, arms: Seq<(String, usize)>) -> Seq<char> {
    if arms.len() == 0 {
        NO_OP_INFO@
    } else {
        DRIVER_HEAD@ + info_arms(ops, arms) + MATCH_TAIL@
    }
}

/// The operators of `ops` read as prefix.
pub open spec fn prefixes(ops: Seq<Emitted>) -> Seq<Emitted> {
    ops.filter(|e: Emitted| e.tier.fixity == Fixity::Prefix)
}

pub open spec fn postfixes(ops: Seq<Emitted>) -> Seq<Emitted> {
    ops.filter(|e: Emitted| e.tier.fixity == Fixity::Postfix)
}

pub open spec fn infixes(ops: Seq<Emitted>) -> Seq<Emitted> {
    ops.filter(|e: Emitted| !is_unary(e.tier.fixity))
}

pub open spec fn prefix_info_arms(ps: Seq<Emitted>) -> Seq<char>
    decreases ps.len(),
{
    if ps.len() == 0 {
        Seq::empty()
    } else {
        prefix_info_arms(ps.drop_last()) + "        Rule::"@ + ps.last().rule@ + " => info("@ + decimal(
            ps.last().precedence as nat,
        ) + "),\n"@
    }
}

pub open spec fn prefix_info_spec(ops: Seq<Emitted>) -> Seq<char> {
    if prefixes(ops).len() == 0 {
        NO_PREFIX_INFO@
    } else {
        PREFIX_HEAD@ + prefix_info_arms(prefixes(ops)) + MATCH_TAIL@
    }
}

fn fixity_assoc_text(f: Fixity) -> (s: &'static str)
    ensures
        s@ == fixity_assoc(f),
{
    match f {
        Fixity::Left => "Fixity::Infix, Assoc::Left",
        Fixity::Right => "Fixity::Infix, Assoc::Right",
        Fixity::Prefix => "Fixity::Prefix, Assoc::Right",
        Fixity::Postfix => "Fixity::Postfix, Assoc::Left",
    }
}

/// Each arm of the generated `op_info` carries the associativity its tier
/// was declared with: an operator of a `right` tier reads as
/// `Fixity::Infix, Assoc::Right` and one of a `left` tier as
/// `Fixity::Infix, Assoc::Left`; prefix operators are right- and postfix
/// operators left-associative.
pub proof fn op_info_arm_keeps_declared_assoc(ops: Seq<Emitted>, rule: String, i: usize)
    requires
        i < ops.len(),
    ensures
        ({
            let e = ops[i as int];
            let head = "        Rule::"@ + rule@ + " => info("@ + decimal(e.precedence as nat) + ", "@;
            let arm = info_arms(ops, seq![(rule, i)]);
            &&& e.tier.fixity == Fixity::Right ==> arm == head + "Fixity::Infix, Assoc::Right"@ + "),\n"@
            &&& e.tier.fixity == Fixity::Left ==> arm == head + "Fixity::Infix, Assoc::Left"@ + "),\n"@
            &&& e.tier.fixity == Fixity::Prefix ==> arm == head + "Fixity::Prefix, Assoc::Right"@ + "),\n"@
            &&& e.tier.fixity == Fixity::Postfix ==> arm == head + "Fixity::Postfix, Assoc::Left"@ + "),\n"@
        }),
{
    let arms = seq![(rule, i)];
    assert(arms.drop_last() =~= Seq::<(String, usize)>::empty());
    assert(info_arms(ops, arms.drop_last()) =~= Seq::<char>::empty());
}

fn emit_op_info(out: &mut String, ops: &[Emitted], arms: &Vec<(String, usize)>)
    requires
        forall|k: int| 0 <= k < arms@.len() ==> (#[trigger] arms@[k]).1 < ops@.len(),
    ensures
        final(out)@ == old(out)@ + op_info_spec(ops@, arms@),
{
    if arms.len() == 0 {
        out.append(NO_OP_INFO);
        return;
    }
    let ghost start = out@;
    out.append(DRIVER_HEAD);
    let mut k: usize = 0;
    while k < arms.len()
        invariant
            k <= arms@.len(),
            forall|q: int| 0 <= q < arms@.len() ==> (#[trigger] arms@[q]).1 < ops@.len(),
            out@ == start + DRIVER_HEAD@ + info_arms(ops@, arms@.take(k as int)),
        decreases arms@.len() - k,
    {
        let e = &ops[arms[k].1];
        out.append("        Rule::");
        out.append(arms[k].0.as_str());
        out.append(" => info(");
        out.append(decimal_string(e.precedence as u64).as_str());
        out.append(", ");
        out.append(fixity_assoc_text(e.tier.fixity));
        out.append("),\n");
        proof {
            assert(arms@.take(k + 1).drop_last() =~= arms@.take(k as int));
        }
        k = k + 1;
    }
    proof {
        assert(arms@.take(arms@.len() as int) =~= arms@);
    }
    out.append(MATCH_TAIL);
}

proof fn lemma_filter_push(s: Seq<Emitted>, k: int, f: spec_fn(Emitted) -> bool)
    requires
        0 <= k < s.len(),
    ensures
        s.take(k + 1).filter(f) == if f(s[k]) {
            s.take(k).filter(f).push(s[k])
        } else {
            s.take(k).filter(f)
        },
{
    reveal(Seq::filter);
    assert(s.take(k + 1).drop_last() =~= s.take(k));
}

/// Prefix readings of the operators, for literals that are also infix.
fn emit_prefix_table(out: &mut String, ops: &[Emitted])
    ensures
        final(out)@ == old(out)@ + prefix_info_spec(ops@),
{
    let ghost start = out@;
    let mut arms = String::new();
    let mut k: usize = 0;
    let mut any = false;
    while k < ops.len()
        invariant
            k <= ops@.len(),
            arms@ == prefix_info_arms(prefixes(ops@.take(k as int))),
            any == (prefixes(ops@.take(k as int)).len() > 0),
        decreases ops@.len() - k,
    {
        proof {
            lemma_filter_push(ops@, k as int, |e: Emitted| e.tier.fixity == Fixity::Prefix);
        }
        if ops[k].tier.fixity == Fixity::Prefix {
            arms.append("        Rule::");
            arms.append(ops[k].rule.as_str());
            arms.append(" => info(");
            arms.append(decimal_string(ops[k].precedence as u64).as_str());
            arms.append("),\n");
            any = true;
            proof {
                let p = prefixes(ops@.take(k + 1));
                assert(p.drop_last() =~= prefixes(ops@.take(k as int)));
            }
        }
        k = k + 1;
    }
    proof {
        assert(ops@.take(ops@.len() as int) =~= ops@);
    }
    if !any {
        out.append(NO_PREFIX_INFO);
    } else {
        out.append(PREFIX_HEAD);
        out.append(arms.as_str());
        out.append(MATCH_TAIL);
    }
}


pub open spec fn unary_arm_lines(ps: Seq<Emitted>, g: Seq<(String, Vec<(String, String)>)>) -> Seq<char>
    decreases ps.len(),
{
    if ps.len() == 0 {
        Seq::empty()
    } else {
        unary_arm_lines(ps.drop_last(), g) + "                Rule::"@ + ps.last().rule@ + " => host."@
            + ident_spec(ps.last().role@) + "("@ + disc_arg_spec(ps.last(), g) + "value),\n"@
    }
}

pub open spec fn unary_arms_spec(ps: Seq<Emitted>, g: Seq<(String, Vec<(String, String)>)>, prefix: bool) -> Seq<char> {
    let what = if prefix { "prefix"@ } else { "postfix"@ };
    if ps.len() == 0 {
        "        Expr::"@ + (if prefix { "Prefix"@ } else { "Postfix"@ })
            + " { op, .. } => Err(Error::runtime(format!(\n            \"`{op:?}` is not a "@ + what
            + " operator\"\n        ))),\n"@
    } else {
        (if prefix {
            "        Expr::Prefix { op, operand, .. } => {\n"@
        } else {
            "        Expr::Postfix { operand, op, .. } => {\n"@
        }) + "            let value = eval_expr(host, operand, cx)?;\n            match op {\n"@
            + unary_arm_lines(ps, g)
            + "                other => Err(Error::runtime(format!(\n                    \"`{other:?}` is not a "@
            + what + " operator\"\n                ))),\n            }\n        }\n"@
    }
}

fn emit_unary_arms(out: &mut String, ops: &[Emitted], grouped: &Vec<(String, Vec<(String, String)>)>, prefix: bool)
    ensures
        final(out)@ == old(out)@ + unary_arms_spec(
            if prefix { prefixes(ops@) } else { postfixes(ops@) },
            grouped@,
            prefix,
        ),
{
    let want = if prefix { Fixity::Prefix } else { Fixity::Postfix };
    let ghost f = |e: Emitted| e.tier.fixity == want;
    proof {
        if prefix {
            assert(f == (|e: Emitted| e.tier.fixity == Fixity::Prefix));
        } else {
            assert(f == (|e: Emitted| e.tier.fixity == Fixity::Postfix));
        }
    }
    let mut lines = String::new();
    let mut any = false;
    let mut k: usize = 0;
    while k < ops.len()
        invariant
            k <= ops@.len(),
            f == (|e: Emitted| e.tier.fixity == want),
            lines@ == unary_arm_lines(ops@.take(k as int).filter(f), grouped@),
            any == (ops@.take(k as int).filter(f).len() > 0),
        decreases ops@.len() - k,
    {
        proof {
            lemma_filter_push(ops@, k as int, f);
        }
        if ops[k].tier.fixity == want {
            lines.append("                Rule::");
            lines.append(ops[k].rule.as_str());
            lines.append(" => host.");
            lines.append(ident(ops[k].role.as_str()).as_str());
            lines.append("(");
            lines.append(discriminant_arg(&ops[k], grouped).as_str());
            lines.append("value),\n");
            any = true;
            proof {
                assert(ops@.take(k + 1).filter(f).drop_last() =~= ops@.take(k as int).filter(f));
            }
        }
        k = k + 1;
    }
    proof {
        assert(ops@.take(ops@.len() as int) =~= ops@);
    }
    let what = if prefix { "prefix" } else { "postfix" };
    if !any {
        out.append("        Expr::");
        out.append(if prefix { "Prefix" } else { "Postfix" });
        out.append(" { op, .. } => Err(Error::runtime(format!(\n            \"`{op:?}` is not a ");
        out.append(what);
        out.append(" operator\"\n        ))),\n");
    } else {
        out.append(if prefix {
            "        Expr::Prefix { op, operand, .. } => {\n"
        } else {
            "        Expr::Postfix { operand, op, .. } => {\n"
        });
        out.append("            let value = eval_expr(host, operand, cx)?;\n            match op {\n");
        out.append(lines.as_str());
        out.append("                other => Err(Error::runtime(format!(\n                    \"`{other:?}` is not a ");
        out.append(what);
        out.append(" operator\"\n                ))),\n            }\n        }\n");
    }
}

pub const PLACE_ARM_MID: &'static str = " => {\n                // The target is RESOLVED, not evaluated as a value, and\n                // its parts are computed exactly once.\n                let place = resolve_place(host, lhs, cx)?;\n                let right = eval_expr(host, rhs, cx)?;\n                ";

pub open spec fn infix_arm_spec(e: Emitted, g: Seq<(String, Vec<(String, String)>)>) -> Seq<char> {
    let role = ident_spec(e.role@);
    let arg = disc_arg_spec(e, g);
    if lists(e.op.lazy@, "lhs"@) {
        let call = if e.op.literal@ == "="@ {
            "host.assign(place, right)"@
        } else {
            "host.compound_assign(place, "@ + disc_name(e.role@) + "::"@ + (match e.variant {
                Some(v) => v@,
                None => "Eq"@,
            }) + ", right)"@
        };
        "            &Rule::"@ + e.rule@ + PLACE_ARM_MID@ + call + "\n            }\n"@
    } else if lists(e.op.lazy@, "rhs"@) {
        "            &Rule::"@ + e.rule@ + " => {\n                let left = eval_expr(host, lhs, cx)?;\n                host."@
            + role + "(left, "@ + arg + "rhs.clone(), cx)\n            }\n"@
    } else {
        "            &Rule::"@ + e.rule@
            + " => {\n                let left = eval_expr(host, lhs, cx)?;\n                let right = eval_expr(host, rhs, cx)?;\n                host."@
            + role + "(left, "@ + arg + "right)\n            }\n"@
    }
}

pub open spec fn infix_lines(es: Seq<Emitted>, g: Seq<(String, Vec<(String, String)>)>) -> Seq<char>
    decreases es.len(),
{
    if es.len() == 0 {
        Seq::empty()
    } else {
        infix_lines(es.drop_last(), g) + infix_arm_spec(es.last(), g)
    }
}

pub open spec fn infix_arms_spec(es: Seq<Emitted>, g: Seq<(String, Vec<(String, String)>)>) -> Seq<char> {
    if es.len() == 0 {
        "        Expr::Infix { op, .. } => Err(Error::runtime(format!(\n            \"`{op:?}` is not an infix operator\"\n        ))),\n"@
    } else {
        "        Expr::Infix { lhs, op, rhs, .. } => match op {\n"@ + infix_lines(es, g)
            + "            other => Err(Error::runtime(format!(\n                \"`{other:?}` is not an infix operator\"\n            ))),\n        },\n"@
    }
}

fn infix_arm(e: &Emitted, grouped: &Vec<(String, Vec<(String, String)>)>) -> (t: String)
    ensures
        t@ == infix_arm_spec(*e, grouped@),
{
    let role = ident(e.role.as_str());
    let arg = discriminant_arg(e, grouped);
    let mut t = owned("            &Rule::");
    t.append(e.rule.as_str());
    if lazy_lhs(e.op) {
        t.append(PLACE_ARM_MID);
        if str_eq(e.op.literal.as_str(), "=") {
            t.append("host.assign(place, right)");
        } else {
            t.append("host.compound_assign(place, ");
            t.append(disc_type(e.role.as_str()).as_str());
            t.append("::");
            match &e.variant {
                Some(v) => t.append(v.as_str()),
                None => t.append("Eq"),
            }
            t.append(", right)");
        }
        t.append("\n            }\n");
    } else if lazy_rhs(e.op) {
        t.append(" => {\n                let left = eval_expr(host, lhs, cx)?;\n                host.");
        t.append(role.as_str());
        t.append("(left, ");
        t.append(arg.as_str());
        t.append("rhs.clone(), cx)\n            }\n");
    } else {
        t.append(" => {\n                let left = eval_expr(host, lhs, cx)?;\n                let right = eval_expr(host, rhs, cx)?;\n                host.");
        t.append(role.as_str());
        t.append("(left, ");
        t.append(arg.as_str());
        t.append("right)\n            }\n");
    }
    t
}

fn emit_infix_arms(out: &mut String, ops: &[Emitted], grouped: &Vec<(String, Vec<(String, String)>)>)
    ensures
        final(out)@ == old(out)@ + infix_arms_spec(infixes(ops@), grouped@),
{
    let ghost f = |e: Emitted| !is_unary(e.tier.fixity);
    let mut lines = String::new();
    let mut any = false;
    let mut k: usize = 0;
    while k < ops.len()
        invariant
            k <= ops@.len(),
            f == (|e: Emitted| !is_unary(e.tier.fixity)),
            lines@ == infix_lines(ops@.take(k as int).filter(f), grouped@),
            any == (ops@.take(k as int).filter(f).len() > 0),
        decreases ops@.len() - k,
    {
        proof {
            lemma_filter_push(ops@, k as int, f);
        }
        let fx = ops[k].tier.fixity;
        if !(fx == Fixity::Prefix || fx == Fixity::Postfix) {
            lines.append(infix_arm(&ops[k], grouped).as_str());
            any = true;
            proof {
                assert(ops@.take(k + 1).filter(f).drop_last() =~= ops@.take(k as int).filter(f));
            }
        }
        k = k + 1;
    }
    proof {
        assert(ops@.take(ops@.len() as int) =~= ops@);
    }
    if !any {
        out.append("        Expr::Infix { op, .. } => Err(Error::runtime(format!(\n            \"`{op:?}` is not an infix operator\"\n        ))),\n");
    } else {
        out.append("        Expr::Infix { lhs, op, rhs, .. } => match op {\n");
        out.append(lines.as_str());
        out.append("            other => Err(Error::runtime(format!(\n                \"`{other:?}` is not an infix operator\"\n            ))),\n        },\n");
    }
}

pub open spec fn driver_spec(ops: Seq<Emitted>, arms: Seq<(String, usize)>, g: Seq<(String, Vec<(String, String)>)>, atom: Seq<char>) -> Seq<char> {
    op_info_spec(ops, arms) + prefix_info_spec(ops) + EVAL_HEAD@ + atom + "(host, a, cx),\n\n"@
        + unary_arms_spec(prefixes(ops), g, true) + unary_arms_spec(postfixes(ops), g, false)
        + infix_arms_spec(infixes(ops), g) + EVAL_TAIL@
}

/// `op_info`, `prefix_info` and `eval_expr`, folding over `atom`.
pub fn emit_driver(out: &mut String, ops: &[Emitted], atom: &str)
    ensures
        exists|arms: Seq<(String, usize)>, g: Seq<(String, Vec<(String, String)>)>| arms_spec(ops@, arms) && grouped_spec(ops@, g)
            && final(out)@ == old(out)@ + driver_spec(ops@, arms, g, atom@),
{
    let grouped = grouped_roles(ops);
    let arms = driver_arms(ops);
    proof {
        assert forall|k: int| 0 <= k < arms@.len() implies (#[trigger] arms@[k]).1 < ops@.len() by {
            lemma_arm_of_range(ops@, arms@[k].0@);
            let q = choose|q: int| 0 <= q < ops@.len() && #[trigger] ops@[q].rule@ == arms@[k].0@;
            let m = choose|m: int| 0 <= m < arms@.len() && arms@[m].0@ == ops@[q].rule@;
            if m != k {
                if m < k {
                    assert(seq_less(arms@[m].0@, arms@[k].0@));
                } else {
                    assert(seq_less(arms@[k].0@, arms@[m].0@));
                }
                lemma_seq_less_asym(arms@[k].0@, arms@[k].0@);
            }
        }
    }
    let ghost start = out@;
    emit_op_info(out, ops, &arms);
    emit_prefix_table(out, ops);
    out.append(EVAL_HEAD);
    out.append(atom);
    out.append("(host, a, cx),\n\n");
    emit_unary_arms(out, ops, &grouped, true);
    emit_unary_arms(out, ops, &grouped, false);
    emit_infix_arms(out, ops, &grouped);
    out.append(EVAL_TAIL);
    proof {
        assert(out@ =~= start + driver_spec(ops@, arms@, grouped@, atom@));
    }
}


pub const VALUE_OPS_HEAD: &'static str = "/// The standard short-circuit bodies, for a host that implements\n/// [`Values`].\n///\n/// Paste it inside your `Operators` impl:\n///\n/// ```ignore\n/// impl Operators for Interp {\n///     nh_value_operators!();\n///     fn add(&mut self, l: Value, r: Value) -> Result<Value> { .. }\n/// }\n/// ```\n///\n/// A bytecode emitter skips this and writes its own, because\n/// short-circuiting compiles to a jump rather than to a decision.\n#[macro_export]\nmacro_rules! nh_value_operators {\n    () => {\n";

pub const VALUE_OP_SIG: &'static str = "(\n            &mut self,\n            lhs: <Self as $crate::generated::dispatch::Semantics>::Out,\n            ";

pub const VALUE_OP_MID: &'static str = "rhs: ::std::rc::Rc<$crate::generated::ast::Expr>,\n            cx: &mut ::nh_runtime::Ctx,\n        ) -> ::nh_runtime::Result<\n            <Self as $crate::generated::dispatch::Semantics>::Out,\n        > {\n            ";

/// Whether an operator short-circuits: lazy in its right operand only.
pub open spec fn short_circuits(e: Emitted) -> bool {
    lists(e.op.lazy@, "rhs"@) && !lists(e.op.lazy@, "lhs"@)
}

/// The short-circuiting operators of `ops` whose method name no earlier one
/// has.
pub open spec fn first_lazy(ops: Seq<Emitted>) -> Seq<Emitted>
    decreases ops.len(),
{
    if ops.len() == 0 {
        Seq::empty()
    } else {
        let prev = first_lazy(ops.drop_last());
        let e = ops.last();
        if !short_circuits(e) || exists|j: int| 0 <= j < prev.len() && ident_spec((#[trigger] prev[j]).role@) == ident_spec(e.role@) {
            prev
        } else {
            prev.push(e)
        }
    }
}

pub open spec fn value_op_spec(e: Emitted, g: Seq<(String, Vec<(String, String)>)>) -> Seq<char> {
    let grouped = disc_arg_spec(e, g).len() > 0;
    "        fn "@ + ident_spec(e.role@) + VALUE_OP_SIG@ + (if grouped {
        "op: $crate::generated::dispatch::"@ + disc_name(e.role@) + ",\n            "@
    } else {
        ""@
    }) + VALUE_OP_MID@ + (if grouped {
        "let _ = op;\n            "@
    } else {
        ""@
    }) + "use $crate::generated::dispatch::{Eval, Values};\n            if "@ + short_circuit_spec(e.role@)
        + " {\n                return Ok(lhs);\n            }\n            rhs.eval(self, cx)\n        }\n"@
}

pub open spec fn value_ops_lines(es: Seq<Emitted>, g: Seq<(String, Vec<(String, String)>)>) -> Seq<char>
    decreases es.len(),
{
    if es.len() == 0 {
        Seq::empty()
    } else {
        value_ops_lines(es.drop_last(), g) + value_op_spec(es.last(), g)
    }
}

pub open spec fn value_operators_spec(ops: Seq<Emitted>, g: Seq<(String, Vec<(String, String)>)>) -> Seq<char> {
    if first_lazy(ops).len() == 0 {
        Seq::empty()
    } else {
        VALUE_OPS_HEAD@ + value_ops_lines(first_lazy(ops), g) + "    };\n}\n\n"@
    }
}

fn value_op(e: &Emitted, grouped: &Vec<(String, Vec<(String, String)>)>) -> (t: String)
    ensures
        t@ == value_op_spec(*e, grouped@),
{
    let arg = discriminant_arg(e, grouped);
    let mut t = owned("        fn ");
    t.append(ident(e.role.as_str()).as_str());
    t.append(VALUE_OP_SIG);
    if arg.as_str().unicode_len() > 0 {
        t.append("op: $crate::generated::dispatch::");
        t.append(disc_type(e.role.as_str()).as_str());
        t.append(",\n            ");
    } else {
        t.append("");
    }
    t.append(VALUE_OP_MID);
    if arg.as_str().unicode_len() > 0 {
        t.append("let _ = op;\n            ");
    } else {
        t.append("");
    }
    t.append("use $crate::generated::dispatch::{Eval, Values};\n            if ");
    t.append(short_circuit_when(e.role.as_str()));
    t.append(" {\n                return Ok(lhs);\n            }\n            rhs.eval(self, cx)\n        }\n");
    t
}

/// The standard short-circuit bodies as a macro, for an interpreter to
/// paste into its `Operators` impl; nothing when no operator short-circuits.
pub fn emit_value_operators(out: &mut String, ops: &[Emitted])
    ensures
        exists|g: Seq<(String, Vec<(String, String)>)>| grouped_spec(ops@, g) && final(out)@ == old(out)@
            + value_operators_spec(ops@, g),
{
    let grouped = grouped_roles(ops);
    let mut lines = String::new();
    let mut seen: Vec<String> = Vec::new();
    let mut k: usize = 0;
    while k < ops.len()
        invariant
            k <= ops@.len(),
            lines@ == value_ops_lines(first_lazy(ops@.take(k as int)), grouped@),
            seen@.len() == first_lazy(ops@.take(k as int)).len(),
            forall|j: int| 0 <= j < seen@.len() ==> (#[trigger] seen@[j])@ == ident_spec(first_lazy(ops@.take(k as int))[j].role@),
        decreases ops@.len() - k,
    {
        let e = &ops[k];
        let ghost prev = first_lazy(ops@.take(k as int));
        proof {
            assert(ops@.take(k + 1).drop_last() =~= ops@.take(k as int));
            assert(ops@.take(k + 1).last() == *e);
        }
        if lazy_rhs(e.op) && !lazy_lhs(e.op) {
            let m = ident(e.role.as_str());
            let dup = lists_word(&seen, m.as_str());
            proof {
                if dup {
                    let j = choose|j: int| 0 <= j < seen@.len() && (#[trigger] seen@[j])@ == m@;
                    assert(ident_spec(prev[j].role@) == ident_spec(e.role@));
                } else {
                    assert forall|j: int| 0 <= j < prev.len() implies ident_spec((#[trigger] prev[j]).role@) != ident_spec(e.role@) by {
                        assert(seen@[j]@ == ident_spec(prev[j].role@));
                    }
                }
            }
            if !dup {
                lines.append(value_op(e, &grouped).as_str());
                seen.push(m);
                proof {
                    assert(first_lazy(ops@.take(k + 1)) == prev.push(*e));
                    assert(first_lazy(ops@.take(k + 1)).drop_last() =~= prev);
                }
            }
        }
        k = k + 1;
    }
    proof {
        assert(ops@.take(ops@.len() as int) =~= ops@);
    }
    if seen.len() > 0 {
        out.append(VALUE_OPS_HEAD);
        out.append(lines.as_str());
        out.append("    };\n}\n\n");
    } else {
        proof {
            assert(old(out)@ + Seq::<char>::empty() =~= old(out)@);
        }
    }
}

} // verus!
