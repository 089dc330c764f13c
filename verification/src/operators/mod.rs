//! Operator tables.
//!
//! Resolves a grammar's `use operators::<preset>` and `precedence` blocks
//! into a single [`OperatorTable`]: an ordered list of tiers, lowest
//! precedence first, each carrying its operators, fixity, semantic role and
//! laziness.

pub mod roles;
pub mod presets;

use vstd::prelude::*;
use crate::syntax::ast::{Ast, Direction, Fixity, OpEntry, OpRef, PrecEntry, PrecedenceBlock};
use crate::syntax::error::{Diagnostic, Errors, Severity};
use crate::syntax::parse::parse_source;
use crate::syntax::source::{SourceMap, Span, Spanned};
use crate::text::{
    byte_len, cat2, cat3, cat5, lemma_seq_less_asym, lemma_seq_less_trans, owned, push_char,
    push_repeat, seq_less, str_eq, str_less, utf8_bytes,
};

verus! {

broadcast use vstd::seq_lib::group_to_multiset_ensures;

/// One operator in a resolved table.
#[derive(Debug)]
pub struct Operator {
    pub literal: String,
    /// Identifier-shaped (`word "AND"`), so it needs a boundary guard and is
    /// reserved automatically.
    pub word: bool,
    pub role: String,
    /// Operand positions left unevaluated.
    pub lazy: Vec<String>,
    pub span: Option<Span>,
}

/// One precedence level. Tier 0 binds loosest.
#[derive(Debug)]
pub struct Tier {
    pub fixity: Fixity,
    pub operators: Vec<Operator>,
    /// Set when the whole tier shares one role.
    pub grouped_role: Option<String>,
}

#[derive(Debug)]
pub struct OperatorTable {
    /// Lowest precedence first.
    pub tiers: Vec<Tier>,
    /// The rule the operator driver folds over (`atom NAME;`).
    pub atom_rule: Option<String>,
    /// Preset this table started from.
    pub preset: Option<String>,
}

impl Default for OperatorTable {
    fn default() -> (t: OperatorTable)
        ensures
            t.tiers@.len() == 0,
            t.atom_rule is None,
            t.preset is None,
    {
        OperatorTable { tiers: Vec::new(), atom_rule: None, preset: None }
    }
}

/// Every operator of `tiers`, tier by tier.
pub open spec fn flat_ops(tiers: Seq<Tier>) -> Seq<Operator>
    decreases tiers.len(),
{
    if tiers.len() == 0 {
        Seq::empty()
    } else {
        flat_ops(tiers.drop_last()) + tiers.last().operators@
    }
}

/// The operators of the tiers with fixity `f`, tier by tier.
pub open spec fn ops_of_fixity(tiers: Seq<Tier>, f: Fixity) -> Seq<Operator>
    decreases tiers.len(),
{
    if tiers.len() == 0 {
        Seq::empty()
    } else if tiers.last().fixity == f {
        ops_of_fixity(tiers.drop_last(), f) + tiers.last().operators@
    } else {
        ops_of_fixity(tiers.drop_last(), f)
    }
}

pub open spec fn derefs(s: Seq<&Operator>) -> Seq<Operator> {
    s.map_values(|o: &Operator| *o)
}

/// `a` goes before `b` in a synthesised alternation: longer literal (in
/// bytes) first, ties in string order.
pub open spec fn goes_before(a: Operator, b: Operator) -> bool {
    utf8_bytes(a.literal@) > utf8_bytes(b.literal@) || (utf8_bytes(a.literal@) == utf8_bytes(
        b.literal@,
    ) && seq_less(a.literal@, b.literal@))
}

/// Longest literal first: no later operator goes before an earlier one.
pub open spec fn longest_first(s: Seq<Operator>) -> bool {
    forall|i: int, j: int| 0 <= i < j < s.len() ==> !goes_before(#[trigger] s[j], #[trigger] s[i])
}

proof fn lemma_goes_before_asym(a: Operator, b: Operator)
    ensures
        !(goes_before(a, b) && goes_before(b, a)),
{
    lemma_seq_less_asym(a.literal@, b.literal@);
}

proof fn lemma_goes_before_trans(a: Operator, b: Operator, c: Operator)
    requires
        goes_before(a, b),
        goes_before(b, c),
    ensures
        goes_before(a, c),
{
    if utf8_bytes(a.literal@) == utf8_bytes(b.literal@) && utf8_bytes(b.literal@) == utf8_bytes(
        c.literal@,
    ) {
        lemma_seq_less_trans(a.literal@, b.literal@, c.literal@);
    }
}

fn op_goes_before(a: &Operator, b: &Operator) -> (r: bool)
    ensures
        r == goes_before(*a, *b),
{
    let la = byte_len(a.literal.as_str());
    let lb = byte_len(b.literal.as_str());
    la > lb || (la == lb && str_less(a.literal.as_str(), b.literal.as_str()))
}

/// Sorts operators longest literal first (then in string order), keeping
/// each one: in a PEG alternation `"<" | "<="` makes `<=` unreachable, and
/// this order gives maximal munch.
pub fn sort_longest_first<'a>(v: Vec<&'a Operator>) -> (r: Vec<&'a Operator>)
    ensures
        derefs(r@).to_multiset() == derefs(v@).to_multiset(),
        longest_first(derefs(r@)),
{
    let mut r: Vec<&'a Operator> = Vec::new();
    let mut i: usize = 0;
    while i < v.len()
        invariant
            i <= v@.len(),
            derefs(r@).to_multiset() == derefs(v@.take(i as int)).to_multiset(),
            longest_first(derefs(r@)),
        decreases v@.len() - i,
    {
        let x = v[i];
        let mut k: usize = 0;
        while k < r.len() && !op_goes_before(x, r[k])
            invariant
                k <= r@.len(),
                forall|m: int| 0 <= m < k ==> !goes_before(*x, #[trigger] derefs(r@)[m]),
            decreases r@.len() - k,
        {
            k = k + 1;
        }
        let ghost old_r = derefs(r@);
        proof {
            if k < r@.len() {
                assert(goes_before(*x, old_r[k as int]));
            }
        }
        r.insert(k, x);
        proof {
            assert(derefs(r@) =~= old_r.insert(k as int, *x));
            assert(derefs(v@.take(i + 1)) =~= derefs(v@.take(i as int)).push(*x));
            assert forall|a: int, b: int| 0 <= a < b < derefs(r@).len() implies !goes_before(
                #[trigger] derefs(r@)[b],
                #[trigger] derefs(r@)[a],
            ) by {
                let s = derefs(r@);
                if a < k && b == k {
                } else if a == k && b > k {
                    // `x` went before `old_r[k]`, which no later element goes before.
                    if goes_before(s[b], *x) {
                        if b - 1 == k {
                            lemma_goes_before_asym(*x, old_r[k as int]);
                        } else {
                            lemma_goes_before_trans(s[b], *x, old_r[k as int]);
                        }
                    }
                } else if a < k && b > k {
                    assert(s[a] == old_r[a]);
                    assert(s[b] == old_r[b - 1]);
                } else if b < k {
                    assert(s[a] == old_r[a]);
                    assert(s[b] == old_r[b]);
                } else {
                    assert(s[a] == old_r[a - 1]);
                    assert(s[b] == old_r[b - 1]);
                }
            }
        }
        i = i + 1;
    }
    assert(v@.take(v@.len() as int) == v@);
    r
}

impl OperatorTable {
    /// Whether no tier holds an operator.
    pub fn is_empty(&self) -> (b: bool)
        ensures
            b == (forall|i: int| 0 <= i < self.tiers@.len() ==> #[trigger] self.tiers@[i].operators@.len() == 0),
    {
        let mut i: usize = 0;
        while i < self.tiers.len()
            invariant
                i <= self.tiers@.len(),
                forall|j: int| 0 <= j < i ==> #[trigger] self.tiers@[j].operators@.len() == 0,
            decreases self.tiers@.len() - i,
        {
            if self.tiers[i].operators.len() > 0 {
                return false;
            }
            i = i + 1;
        }
        true
    }

    /// Every operator, tier by tier, lowest precedence first.
    pub fn operators(&self) -> (r: Vec<&Operator>)
        ensures
            derefs(r@) == flat_ops(self.tiers@),
    {
        let mut r: Vec<&Operator> = Vec::new();
        let mut i: usize = 0;
        while i < self.tiers.len()
            invariant
                i <= self.tiers@.len(),
                derefs(r@) == flat_ops(self.tiers@.take(i as int)),
            decreases self.tiers@.len() - i,
        {
            let ghost before = derefs(r@);
            let tier = &self.tiers[i];
            let mut j: usize = 0;
            while j < tier.operators.len()
                invariant
                    j <= tier.operators@.len(),
                    derefs(r@) == before + tier.operators@.take(j as int),
                decreases tier.operators@.len() - j,
            {
                let ghost prev = r@;
                r.push(&tier.operators[j]);
                proof {
                    assert(derefs(r@) =~= derefs(prev).push(tier.operators@[j as int]));
                    assert(tier.operators@.take(j + 1) =~= tier.operators@.take(j as int).push(tier.operators@[j as int]));
                }
                j = j + 1;
            }
            assert(self.tiers@.take(i + 1).drop_last() == self.tiers@.take(i as int));
            assert(tier.operators@.take(j as int) == tier.operators@);
            i = i + 1;
        }
        assert(self.tiers@.take(i as int) == self.tiers@);
        r
    }

    /// Whether some tier of fixity `f` holds an operator.
    pub fn has_fixity(&self, f: Fixity) -> (b: bool)
        ensures
            b == (exists|i: int|
                0 <= i < self.tiers@.len() && #[trigger] self.tiers@[i].fixity == f
                    && self.tiers@[i].operators@.len() > 0),
    {
        let mut i: usize = 0;
        while i < self.tiers.len()
            invariant
                i <= self.tiers@.len(),
                forall|j: int|
                    0 <= j < i ==> !(#[trigger] self.tiers@[j].fixity == f
                        && self.tiers@[j].operators@.len() > 0),
            decreases self.tiers@.len() - i,
        {
            if self.tiers[i].fixity == f && self.tiers[i].operators.len() > 0 {
                return true;
            }
            i = i + 1;
        }
        false
    }

    /// Operators of a given fixity, sorted longest literal first.
    ///
    /// Not cosmetic: in a PEG alternation `"<" | "<="` makes `<=`
    /// unreachable, and longest-first yields maximal munch.
    pub fn sorted_by_fixity(&self, f: Fixity) -> (r: Vec<&Operator>)
        ensures
            derefs(r@).to_multiset() == ops_of_fixity(self.tiers@, f).to_multiset(),
            longest_first(derefs(r@)),
    {
        let mut v: Vec<&Operator> = Vec::new();
        let mut i: usize = 0;
        while i < self.tiers.len()
            invariant
                i <= self.tiers@.len(),
                derefs(v@) == ops_of_fixity(self.tiers@.take(i as int), f),
            decreases self.tiers@.len() - i,
        {
            let ghost before = derefs(v@);
            let tier = &self.tiers[i];
            assert(self.tiers@.take(i + 1).drop_last() == self.tiers@.take(i as int));
            if tier.fixity == f {
                let mut j: usize = 0;
                while j < tier.operators.len()
                    invariant
                        j <= tier.operators@.len(),
                        derefs(v@) == before + tier.operators@.take(j as int),
                    decreases tier.operators@.len() - j,
                {
                    let ghost prev = v@;
                    v.push(&tier.operators[j]);
                    proof {
                        assert(derefs(v@) =~= derefs(prev).push(tier.operators@[j as int]));
                        assert(tier.operators@.take(j + 1) =~= tier.operators@.take(j as int).push(tier.operators@[j as int]));
                    }
                    j = j + 1;
                }
                assert(tier.operators@.take(j as int) == tier.operators@);
            }
            i = i + 1;
        }
        assert(self.tiers@.take(i as int) == self.tiers@);
        sort_longest_first(v)
    }

    /// The first tier holding an operator spelled `literal`.
    fn find_tier_of(&self, literal: &str) -> (r: Option<usize>)
        ensures
            match r {
                Some(i) => i < self.tiers@.len() && exists|j: int|
                    0 <= j < self.tiers@[i as int].operators@.len()
                        && #[trigger] self.tiers@[i as int].operators@[j].literal@ == literal@,
                None => forall|i: int, j: int|
                    0 <= i < self.tiers@.len() && 0 <= j < self.tiers@[i].operators@.len()
                        ==> #[trigger] self.tiers@[i].operators@[j].literal@ != literal@,
            },
            match r {
                Some(i) => i == first_spelling(tiers_view(self.tiers@), literal@),
                None => first_spelling(tiers_view(self.tiers@), literal@) == -1,
            },
    {
        let ghost tv = tiers_view(self.tiers@);
        let mut i: usize = 0;
        while i < self.tiers.len()
            invariant
                i <= self.tiers@.len(),
                tv == tiers_view(self.tiers@),
                forall|a: int, j: int|
                    0 <= a < i && 0 <= j < self.tiers@[a].operators@.len()
                        ==> #[trigger] self.tiers@[a].operators@[j].literal@ != literal@,
            decreases self.tiers@.len() - i,
        {
            let tier = &self.tiers[i];
            let mut j: usize = 0;
            while j < tier.operators.len()
                invariant
                    i < self.tiers@.len(),
                    *tier == self.tiers@[i as int],
                    j <= tier.operators@.len(),
                    forall|b: int| 0 <= b < j ==> #[trigger] tier.operators@[b].literal@ != literal@,
                    tv == tiers_view(self.tiers@),
                    forall|a: int, b: int|
                        0 <= a < i && 0 <= b < self.tiers@[a].operators@.len()
                            ==> #[trigger] self.tiers@[a].operators@[b].literal@ != literal@,
                decreases tier.operators@.len() - j,
            {
                if str_eq(tier.operators[j].literal.as_str(), literal) {
                    assert(self.tiers@[i as int].operators@[j as int].literal@ == literal@);
                    proof {
                        self.lemma_no_spelling_below(literal@, i as int);
                        assert(tv[i as int].1[j as int].0 == literal@);
                        lemma_first_spelling(tv, literal@, i as int);
                    }
                    return Some(i);
                }
                j = j + 1;
            }
            i = i + 1;
        }
        proof {
            self.lemma_no_spelling_below(literal@, i as int);
            lemma_first_spelling(tv, literal@, i as int);
        }
        None
    }

    proof fn lemma_no_spelling_below(&self, literal: Seq<char>, i: int)
        requires
            0 <= i <= self.tiers@.len(),
            forall|a: int, j: int|
                0 <= a < i && 0 <= j < self.tiers@[a].operators@.len()
                    ==> #[trigger] self.tiers@[a].operators@[j].literal@ != literal,
        ensures
            forall|a: int| 0 <= a < i ==> !spells(#[trigger] tiers_view(self.tiers@)[a], literal),
    {
        assert forall|a: int| 0 <= a < i implies !spells(#[trigger] tiers_view(self.tiers@)[a], literal) by {
            let t = tiers_view(self.tiers@)[a];
            if spells(t, literal) {
                let j = choose|j: int| 0 <= j < t.1.len() && #[trigger] t.1[j].0 == literal;
                assert(self.tiers@[a].operators@[j].literal@ == literal);
            }
        }
    }
}

// ---------------------------------------------------------------------------
// Resolution
// ---------------------------------------------------------------------------

/// The role an operator of `t` answers to: the tier's, when it has one.
pub open spec fn effective_role(t: Tier, o: Operator) -> Seq<char> {
    match t.grouped_role {
        Some(r) => r@,
        None => o.role@,
    }
}

/// Whether operator `j` of tier `i` exists.
pub open spec fn has_op(tiers: Seq<Tier>, i: int, j: int) -> bool {
    0 <= i < tiers.len() && 0 <= j < tiers[i].operators@.len()
}

/// A role names one operation with one signature, so it is bound at one
/// fixity: every two operators answering to one role share their fixity.
pub open spec fn roles_consistent(tiers: Seq<Tier>) -> bool {
    forall|i1: int, j1: int, i2: int, j2: int|
        has_op(tiers, i1, j1) && has_op(tiers, i2, j2) && effective_role(
            tiers[i1],
            #[trigger] tiers[i1].operators@[j1],
        ) == effective_role(tiers[i2], #[trigger] tiers[i2].operators@[j2]) ==> tiers[i1].fixity
            == tiers[i2].fixity
}

/// The role an operator of tier `t` answers to, on plain values.
pub open spec fn view_role(t: TierView, o: OpView) -> Seq<char> {
    match t.2 {
        Some(g) => g,
        None => o.2,
    }
}

/// `roles_consistent` on plain values.
pub open spec fn roles_consistent_view(tv: Seq<TierView>) -> bool {
    forall|i1: int, j1: int, i2: int, j2: int|
        0 <= i1 < tv.len() && 0 <= j1 < tv[i1].1.len() && 0 <= i2 < tv.len() && 0 <= j2 < tv[i2].1.len()
            && view_role(tv[i1], #[trigger] tv[i1].1[j1]) == view_role(tv[i2], #[trigger] tv[i2].1[j2])
            ==> tv[i1].0 == tv[i2].0
}

proof fn lemma_roles_consistent_view(ts: Seq<Tier>)
    ensures
        roles_consistent(ts) == roles_consistent_view(tiers_view(ts)),
{
    let tv = tiers_view(ts);
    if roles_consistent(ts) {
        assert forall|i1: int, j1: int, i2: int, j2: int|
            0 <= i1 < tv.len() && 0 <= j1 < tv[i1].1.len() && 0 <= i2 < tv.len() && 0 <= j2 < tv[i2].1.len()
                && view_role(tv[i1], #[trigger] tv[i1].1[j1]) == view_role(tv[i2], #[trigger] tv[i2].1[j2])
                implies tv[i1].0 == tv[i2].0 by {
            assert(effective_role(ts[i1], ts[i1].operators@[j1]) == view_role(tv[i1], tv[i1].1[j1]));
            assert(effective_role(ts[i2], ts[i2].operators@[j2]) == view_role(tv[i2], tv[i2].1[j2]));
            assert(has_op(ts, i1, j1) && has_op(ts, i2, j2));
        }
    }
    if roles_consistent_view(tv) {
        assert forall|i1: int, j1: int, i2: int, j2: int|
            has_op(ts, i1, j1) && has_op(ts, i2, j2) && effective_role(ts[i1], #[trigger] ts[i1].operators@[j1])
                == effective_role(ts[i2], #[trigger] ts[i2].operators@[j2]) implies ts[i1].fixity == ts[i2].fixity by {
            assert(effective_role(ts[i1], ts[i1].operators@[j1]) == view_role(tv[i1], tv[i1].1[j1]));
            assert(effective_role(ts[i2], ts[i2].operators@[j2]) == view_role(tv[i2], tv[i2].1[j2]));
            assert(tv[i1].0 == ts[i1].fixity);
        }
    }
}

/// Whether any diagnostic of `ds` is an error.
pub open spec fn has_error(ds: Seq<Diagnostic>) -> bool {
    exists|i: int| 0 <= i < ds.len() && #[trigger] ds[i].severity == Severity::Error
}

/// Whether any diagnostic of `ds` is an error.
pub fn any_error_in(ds: &Vec<Diagnostic>) -> (b: bool)
    ensures
        b == has_error(ds@),
{
    let mut i: usize = 0;
    while i < ds.len()
        invariant
            i <= ds@.len(),
            forall|j: int| 0 <= j < i ==> #[trigger] ds@[j].severity != Severity::Error,
        decreases ds@.len() - i,
    {
        if ds[i].severity == Severity::Error {
            return true;
        }
        i = i + 1;
    }
    false
}

pub open spec fn fixity_description(f: Fixity) -> Seq<char> {
    match f {
        Fixity::Left => "infix, left-associative"@,
        Fixity::Right => "infix, right-associative"@,
        Fixity::Prefix => "prefix"@,
        Fixity::Postfix => "postfix"@,
    }
}

/// Whether `d` reports a role bound at two different fixities, naming the
/// role and both fixities.
pub open spec fn fixity_conflict(d: Diagnostic) -> bool {
    &&& d.severity == Severity::Error
    &&& exists|r: Seq<char>, f1: Fixity, f2: Fixity|
        f1 != f2 && d.message@ == "role `"@ + r + "` is bound at two different fixities ("@ + fixity_description(f1)
            + " and "@ + fixity_description(f2) + ")"@
}

/// Whether some diagnostic of `ds` reports a role at two fixities.
pub open spec fn reports_fixity_conflict(ds: Seq<Diagnostic>) -> bool {
    exists|k: int| 0 <= k < ds.len() && fixity_conflict(#[trigger] ds[k])
}

fn describe_fixity(f: Fixity) -> (s: &'static str)
    ensures
        s@ == fixity_description(f),
{
    match f {
        Fixity::Left => "infix, left-associative",
        Fixity::Right => "infix, right-associative",
        Fixity::Prefix => "prefix",
        Fixity::Postfix => "postfix",
    }
}

fn role_of<'a>(tier: &'a Tier, op: &'a Operator) -> (r: &'a str)
    ensures
        r@ == effective_role(*tier, *op),
{
    match &tier.grouped_role {
        Some(g) => g.as_str(),
        None => op.role.as_str(),
    }
}

/// Whether `(a, b)` is among the operators before operator `j` of tier `t`.
pub open spec fn processed(tiers: Seq<Tier>, t: int, j: int, a: int, b: int) -> bool {
    has_op(tiers, a, b) && (a < t || (a == t && b < j))
}

/// Every two operators before operator `j` of tier `t` that answer to one
/// role share their fixity.
pub open spec fn consistent_upto(tiers: Seq<Tier>, t: int, j: int) -> bool {
    forall|a1: int, b1: int, a2: int, b2: int|
        processed(tiers, t, j, a1, b1) && processed(tiers, t, j, a2, b2) && effective_role(
            tiers[a1],
            #[trigger] tiers[a1].operators@[b1],
        ) == effective_role(tiers[a2], #[trigger] tiers[a2].operators@[b2]) ==> tiers[a1].fixity
            == tiers[a2].fixity
}

/// The first operator, among those already bound (all of each earlier tier
/// up to `reg`, then the current tier up to `j`), that answers to `role`.
fn first_with_role(tiers: &Vec<Tier>, reg: &Vec<usize>, t: usize, j: usize, role: &str) -> (r: Option<(usize, usize)>)
    requires
        t < tiers@.len(),
        j <= tiers@[t as int].operators@.len(),
        reg@.len() == t,
        forall|a: int| 0 <= a < t ==> #[trigger] reg@[a] <= tiers@[a].operators@.len(),
    ensures
        match r {
            Some((a, b)) => has_op(tiers@, a as int, b as int) && ((a < t && b < reg@[a as int]) || (
            a == t && b < j)) && effective_role(tiers@[a as int], tiers@[a as int].operators@[b as int])
                == role@,
            None => forall|a: int, b: int|
                has_op(tiers@, a, b) && ((a < t && b < reg@[a]) || (a == t && b < j))
                    ==> effective_role(tiers@[a], #[trigger] tiers@[a].operators@[b]) != role@,
        },
{
    let n = tiers.len();
    let mut a: usize = 0;
    while a <= t
        invariant
            n == tiers@.len(),
            t < tiers@.len(),
            j <= tiers@[t as int].operators@.len(),
            reg@.len() == t,
            forall|x: int| 0 <= x < t ==> #[trigger] reg@[x] <= tiers@[x].operators@.len(),
            a <= t + 1,
            forall|x: int, b: int|
                has_op(tiers@, x, b) && x < a && ((x < t && b < reg@[x]) || (x == t && b < j))
                    ==> effective_role(tiers@[x], #[trigger] tiers@[x].operators@[b]) != role@,
        decreases t + 1 - a,
    {
        let tier = &tiers[a];
        let upto = if a < t { reg[a] } else { j };
        let mut b: usize = 0;
        while b < upto
            invariant
                a <= t,
                t < tiers@.len(),
                reg@.len() == t,
                *tier == tiers@[a as int],
                upto <= tier.operators@.len(),
                upto == (if a < t { reg@[a as int] } else { j }),
                b <= upto,
                forall|c: int| 0 <= c < b ==> effective_role(*tier, #[trigger] tier.operators@[c]) != role@,
            decreases upto - b,
        {
            if str_eq(role_of(tier, &tier.operators[b]), role) {
                return Some((a, b));
            }
            b = b + 1;
        }
        a = a + 1;
    }
    None
}

/// Reports each role bound at two different fixities. Exactly when every
/// role is bound at one fixity is nothing reported.
fn validate_roles(table: &OperatorTable, diagnostics: &mut Vec<Diagnostic>)
    ensures
        appended_errors(old(diagnostics)@, final(diagnostics)@),
        (final(diagnostics)@.len() == old(diagnostics)@.len()) == roles_consistent(table.tiers@),
        forall|k: int|
            old(diagnostics)@.len() <= k < final(diagnostics)@.len() ==> fixity_conflict(#[trigger] final(diagnostics)@[k]),
{
    let tiers = &table.tiers;
    let ghost start = diagnostics@;
    assert(start.take(start.len() as int) =~= start);
    // How many operators of each earlier tier count as bound.
    let mut reg: Vec<usize> = Vec::new();
    let mut t: usize = 0;
    while t < tiers.len()
        invariant
            t <= tiers@.len(),
            reg@.len() == t,
            forall|a: int| 0 <= a < t ==> #[trigger] reg@[a] <= tiers@[a].operators@.len(),
            appended_errors(start, diagnostics@),
                forall|k: int| start.len() <= k < diagnostics@.len() ==> fixity_conflict(#[trigger] diagnostics@[k]),
            diagnostics@.len() == start.len() ==> consistent_upto(tiers@, t as int, 0) && forall|a: int|
                0 <= a < t ==> #[trigger] reg@[a] == tiers@[a].operators@.len(),
            diagnostics@.len() > start.len() ==> !roles_consistent(tiers@),
        decreases tiers@.len() - t,
    {
        let tier = &tiers[t];
        let mut j: usize = 0;
        let mut stop = false;
        proof {
            if diagnostics@.len() == start.len() {
                assert forall|a1: int, b1: int, a2: int, b2: int|
                    processed(tiers@, t as int, 0, a1, b1) && processed(tiers@, t as int, 0, a2, b2)
                        && effective_role(tiers@[a1], #[trigger] tiers@[a1].operators@[b1]) == effective_role(
                        tiers@[a2],
                        #[trigger] tiers@[a2].operators@[b2],
                    ) implies tiers@[a1].fixity == tiers@[a2].fixity by {
                    assert(processed(tiers@, t as int, 0, a1, b1));
                }
            }
        }
        while j < tier.operators.len() && !stop
            invariant
                t < tiers@.len(),
                *tier == tiers@[t as int],
                j <= tier.operators@.len(),
                reg@.len() == t,
                forall|a: int| 0 <= a < t ==> #[trigger] reg@[a] <= tiers@[a].operators@.len(),
                appended_errors(start, diagnostics@),
                forall|k: int| start.len() <= k < diagnostics@.len() ==> fixity_conflict(#[trigger] diagnostics@[k]),
                stop ==> diagnostics@.len() > start.len(),
                diagnostics@.len() == start.len() ==> consistent_upto(tiers@, t as int, j as int)
                    && forall|a: int| 0 <= a < t ==> #[trigger] reg@[a] == tiers@[a].operators@.len(),
                diagnostics@.len() > start.len() ==> !roles_consistent(tiers@),
            decreases tier.operators@.len() - j + if stop { 0int } else { 1int },
        {
            let op = &tier.operators[j];
            let role = role_of(tier, op);
            proof { assert(tiers@[t as int].operators@[j as int] == *op); }
            match first_with_role(tiers, &reg, t, j, role) {
                None => {
                    proof {
                        if diagnostics@.len() == start.len() {
                            assert forall|a1: int, b1: int, a2: int, b2: int|
                                processed(tiers@, t as int, j + 1, a1, b1) && processed(tiers@, t as int, j + 1, a2, b2)
                                    && effective_role(tiers@[a1], #[trigger] tiers@[a1].operators@[b1])
                                    == effective_role(tiers@[a2], #[trigger] tiers@[a2].operators@[b2])
                                implies tiers@[a1].fixity == tiers@[a2].fixity by {
                                if processed(tiers@, t as int, j as int, a1, b1) && processed(tiers@, t as int, j as int, a2, b2) {
                                } else if !processed(tiers@, t as int, j as int, a1, b1) && !processed(tiers@, t as int, j as int, a2, b2) {
                                } else if !processed(tiers@, t as int, j as int, a1, b1) {
                                    assert(a1 == t && b1 == j);
                                } else {
                                    assert(a2 == t && b2 == j);
                                }
                            }
                        }
                    }
                    j = j + 1;
                },
                Some((a, b)) => {
                    let fix = tiers[a].fixity;
                    if fix == tier.fixity {
                        proof {
                            if diagnostics@.len() == start.len() {
                                assert(processed(tiers@, t as int, j as int, a as int, b as int));
                                assert forall|a1: int, b1: int, a2: int, b2: int|
                                    processed(tiers@, t as int, j + 1, a1, b1) && processed(tiers@, t as int, j + 1, a2, b2)
                                        && effective_role(tiers@[a1], #[trigger] tiers@[a1].operators@[b1])
                                        == effective_role(tiers@[a2], #[trigger] tiers@[a2].operators@[b2])
                                    implies tiers@[a1].fixity == tiers@[a2].fixity by {
                                    if processed(tiers@, t as int, j as int, a1, b1) && processed(tiers@, t as int, j as int, a2, b2) {
                                    } else if !processed(tiers@, t as int, j as int, a1, b1) && !processed(tiers@, t as int, j as int, a2, b2) {
                                    } else if !processed(tiers@, t as int, j as int, a1, b1) {
                                        assert(a1 == t && b1 == j);
                                        let x = tiers@[a as int].operators@[b as int];
                                        assert(effective_role(tiers@[a as int], x) == effective_role(tiers@[a2], tiers@[a2].operators@[b2]));
                                    } else {
                                        assert(a2 == t && b2 == j);
                                        let x = tiers@[a as int].operators@[b as int];
                                        assert(effective_role(tiers@[a as int], x) == effective_role(tiers@[a1], tiers@[a1].operators@[b1]));
                                    }
                                }
                            }
                        }
                        j = j + 1;
                    } else {
                        proof {
                            let x = tiers@[a as int].operators@[b as int];
                            let y = tiers@[t as int].operators@[j as int];
                            assert(has_op(tiers@, t as int, j as int));
                            assert(effective_role(tiers@[a as int], x) == effective_role(tiers@[t as int], y));
                        }
                        let first_span = tiers[a].operators[0].span;
                        let mut msg = cat3("role `", role, "` is bound at two different fixities (");
                        msg.append(describe_fixity(fix));
                        msg.append(" and ");
                        msg.append(describe_fixity(tier.fixity));
                        msg.append(")");
                        let d = Diagnostic::error(msg.as_str()).note("first bound here", first_span).help(
                            "a role names one operation with one signature; use distinct roles, as `-` uses `sub` when infix and `neg` when prefix",
                        );
                        let d = match op.span {
                            Some(sp) => d.at(sp),
                            None => d,
                        };
                        let ghost before = diagnostics@;
                        diagnostics.push(d);
                        proof {
                            assert(diagnostics@.take(start.len() as int) =~= start);
                            assert(fix != tier.fixity);
                            assert(d.message@ == "role `"@ + role@ + "` is bound at two different fixities ("@
                                + fixity_description(fix) + " and "@ + fixity_description(tier.fixity) + ")"@);
                            assert(fixity_conflict(diagnostics@[before.len() as int]));
                        }
                        stop = true;
                    }
                },
            }
        }
        reg.push(j);
        proof {
            if diagnostics@.len() == start.len() {
                assert(j == tier.operators@.len());
                assert forall|a1: int, b1: int, a2: int, b2: int|
                    processed(tiers@, t + 1, 0, a1, b1) && processed(tiers@, t + 1, 0, a2, b2)
                        && effective_role(tiers@[a1], #[trigger] tiers@[a1].operators@[b1]) == effective_role(
                        tiers@[a2],
                        #[trigger] tiers@[a2].operators@[b2],
                    ) implies tiers@[a1].fixity == tiers@[a2].fixity by {
                    assert(processed(tiers@, t as int, j as int, a1, b1));
                    assert(processed(tiers@, t as int, j as int, a2, b2));
                }
            }
        }
        t = t + 1;
    }
    proof {
        if diagnostics@.len() == start.len() {
            assert forall|i1: int, j1: int, i2: int, j2: int|
                has_op(tiers@, i1, j1) && has_op(tiers@, i2, j2) && effective_role(
                    tiers@[i1],
                    #[trigger] tiers@[i1].operators@[j1],
                ) == effective_role(tiers@[i2], #[trigger] tiers@[i2].operators@[j2]) implies tiers@[i1].fixity
                == tiers@[i2].fixity by {
                assert(processed(tiers@, t as int, 0, i1, j1));
                assert(processed(tiers@, t as int, 0, i2, j2));
            }
        }
    }
}

// ---------------------------------------------------------------------------
// What a `precedence` block does to a table, on plain values
// ---------------------------------------------------------------------------

/// An operator as plain values: spelling, word-ness, role, lazy operands
/// and span.
pub type OpView = (Seq<char>, bool, Seq<char>, Seq<Seq<char>>, Option<Span>);

/// A tier as plain values: fixity, operators and grouped role.
pub type TierView = (Fixity, Seq<OpView>, Option<Seq<char>>);

pub open spec fn op_view(o: Operator) -> OpView {
    (o.literal@, o.word, o.role@, o.lazy@.map_values(|s: String| s@), o.span)
}

pub open spec fn opt_str(o: Option<String>) -> Option<Seq<char>> {
    match o {
        Some(s) => Some(s@),
        None => None,
    }
}

pub open spec fn opt_value(o: Option<Spanned<String>>) -> Option<Seq<char>> {
    match o {
        Some(s) => Some(s.value@),
        None => None,
    }
}

pub open spec fn tier_view(t: Tier) -> TierView {
    (t.fixity, t.operators@.map_values(|o: Operator| op_view(o)), opt_str(t.grouped_role))
}

pub open spec fn tiers_view(ts: Seq<Tier>) -> Seq<TierView> {
    ts.map_values(|t: Tier| tier_view(t))
}

/// Whether tier `t` holds an operator spelled `lit`.
pub open spec fn spells(t: TierView, lit: Seq<char>) -> bool {
    exists|j: int| 0 <= j < t.1.len() && #[trigger] t.1[j].0 == lit
}

/// The first tier holding an operator spelled `lit`, or -1.
pub open spec fn first_spelling(tv: Seq<TierView>, lit: Seq<char>) -> int
    decreases tv.len(),
{
    if tv.len() == 0 {
        -1
    } else if spells(tv[0], lit) {
        0
    } else {
        let r = first_spelling(tv.drop_first(), lit);
        if r < 0 {
            -1
        } else {
            r + 1
        }
    }
}

/// `ops` without those spelled `lit`.
pub open spec fn without(ops: Seq<OpView>, lit: Seq<char>) -> Seq<OpView>
    decreases ops.len(),
{
    if ops.len() == 0 {
        Seq::empty()
    } else if ops.last().0 == lit {
        without(ops.drop_last(), lit)
    } else {
        without(ops.drop_last(), lit).push(ops.last())
    }
}

/// Tier `i` without its operators spelled `lit`, dropped when none remain.
pub open spec fn remove_at(tv: Seq<TierView>, i: int, lit: Seq<char>) -> Seq<TierView> {
    let kept = without(tv[i].1, lit);
    if kept.len() == 0 {
        tv.remove(i)
    } else {
        tv.update(i, (tv[i].0, kept, tv[i].2))
    }
}

/// `remove "lit";`: the first tier spelling `lit` loses it.
pub open spec fn remove_spelling(tv: Seq<TierView>, lit: Seq<char>) -> Seq<TierView> {
    let i = first_spelling(tv, lit);
    if i < 0 {
        tv
    } else {
        remove_at(tv, i, lit)
    }
}

pub open spec fn remove_all(tv: Seq<TierView>, ops: Seq<OpRef>) -> Seq<TierView>
    decreases ops.len(),
{
    if ops.len() == 0 {
        tv
    } else {
        remove_spelling(remove_all(tv, ops.drop_last()), ops.last().literal.value@)
    }
}

/// How many of `ops` are in no tier when their turn comes.
pub open spec fn remove_errors(tv: Seq<TierView>, ops: Seq<OpRef>) -> nat
    decreases ops.len(),
{
    if ops.len() == 0 {
        0
    } else {
        remove_errors(tv, ops.drop_last()) + if first_spelling(
            remove_all(tv, ops.drop_last()),
            ops.last().literal.value@,
        ) < 0 {
            1nat
        } else {
            0nat
        }
    }
}

/// The role `op` gets: the tier's `-> role`, else the built-in map.
pub open spec fn op_role(op: OpRef, tier_role: Option<Spanned<String>>, prefix: bool) -> Option<Seq<char>> {
    match tier_role {
        Some(t) => Some(t.value@),
        None => if op.word {
            roles::role_for_upper_word(crate::text::upper_seq(op.literal.value@), prefix)
        } else {
            roles::role_for_spec(op.literal.value@, prefix)
        },
    }
}

/// The lazy operands of an operator with `role` in `oe`: those named, else
/// the role's default.
pub open spec fn entry_lazy(oe: OpEntry, role: Seq<char>) -> Seq<Seq<char>> {
    if oe.lazy@.len() == 0 {
        roles::default_lazy_spec(role)
    } else {
        oe.lazy@.map_values(|l: Spanned<String>| l.value@)
    }
}

/// The operators an entry contributes: each of `ops` that has a role.
pub open spec fn entry_ops(oe: OpEntry, ops: Seq<OpRef>) -> Seq<OpView>
    decreases ops.len(),
{
    if ops.len() == 0 {
        Seq::empty()
    } else {
        let r = entry_ops(oe, ops.drop_last());
        let op = ops.last();
        match op_role(op, oe.role, oe.fixity.value == Fixity::Prefix) {
            Some(role) => r.push((op.literal.value@, op.word, role, entry_lazy(oe, role), Some(op.span))),
            None => r,
        }
    }
}

/// How many of `ops` have no role.
pub open spec fn role_errors(oe: OpEntry, ops: Seq<OpRef>) -> nat
    decreases ops.len(),
{
    if ops.len() == 0 {
        0
    } else {
        role_errors(oe, ops.drop_last()) + if op_role(
            ops.last(),
            oe.role,
            oe.fixity.value == Fixity::Prefix,
        ) is None {
            1nat
        } else {
            0nat
        }
    }
}

/// An operator entry: its tier goes on top, or just above or below the
/// tier of its anchor; with no operator, or an anchor in no tier, nothing
/// changes.
pub open spec fn add_tier(tv: Seq<TierView>, oe: OpEntry) -> Seq<TierView> {
    let ops = entry_ops(oe, oe.ops@);
    let t = (oe.fixity.value, ops, opt_value(oe.role));
    if ops.len() == 0 {
        tv
    } else {
        match oe.placement {
            None => tv.push(t),
            Some(p) => {
                let i = first_spelling(tv, p.anchor.value@);
                if i < 0 {
                    tv
                } else if p.direction == Direction::Above {
                    tv.insert(i + 1, t)
                } else {
                    tv.insert(i, t)
                }
            },
        }
    }
}

pub open spec fn add_errors(tv: Seq<TierView>, oe: OpEntry) -> nat {
    role_errors(oe, oe.ops@) + if entry_ops(oe, oe.ops@).len() > 0 && (oe.placement matches Some(p)
        && first_spelling(tv, p.anchor.value@) < 0) {
        1nat
    } else {
        0nat
    }
}

pub open spec fn apply_entry(tv: Seq<TierView>, e: PrecEntry) -> Seq<TierView> {
    match e {
        PrecEntry::Atom { .. } => tv,
        PrecEntry::Remove { ops, .. } => remove_all(tv, ops@),
        PrecEntry::Op(oe) => add_tier(tv, oe),
    }
}

pub open spec fn entry_errors(tv: Seq<TierView>, e: PrecEntry) -> nat {
    match e {
        PrecEntry::Atom { .. } => 0,
        PrecEntry::Remove { ops, .. } => remove_errors(tv, ops@),
        PrecEntry::Op(oe) => add_errors(tv, oe),
    }
}

/// The error for removing `lit` when no tier holds it.
pub open spec fn removal_message(lit: Seq<char>) -> Seq<char> {
    "cannot remove `"@ + lit + "`: not in the table"@
}

/// Whether `ds` holds, from `from` on, the error for removing absent `lit`.
pub open spec fn removal_noted(ds: Seq<Diagnostic>, from: int, lit: Seq<char>) -> bool {
    exists|p: int| from <= p < ds.len() && #[trigger] ds[p].message@ == removal_message(lit) && ds[p].severity == Severity::Error
}

/// The spelling that op `k` of entry `e` removes.
pub open spec fn removed_spelling(es: Seq<PrecEntry>, e: int, k: int) -> Seq<char> {
    match es[e] {
        PrecEntry::Remove { ops, .. } => ops@[k].literal.value@,
        _ => Seq::empty(),
    }
}

/// Whether op `k` of entry `e` removes a spelling no tier holds when its
/// turn comes.
pub open spec fn absent_removal(tv0: Seq<TierView>, es: Seq<PrecEntry>, e: int, k: int) -> bool {
    &&& 0 <= e < es.len()
    &&& es[e] matches PrecEntry::Remove { ops, .. }
    &&& 0 <= k < ops@.len()
    &&& first_spelling(remove_all(apply_entries(tv0, es.take(e)), ops@.take(k)), ops@[k].literal.value@) < 0
}

/// Whether each absent removal before op `nk` of entry `ne` is reported.
pub open spec fn removals_noted(tv0: Seq<TierView>, es: Seq<PrecEntry>, ds: Seq<Diagnostic>, from: int, ne: int, nk: int) -> bool {
    forall|e: int, k: int|
        #[trigger] absent_removal(tv0, es, e, k) && (e < ne || (e == ne && k < nk)) ==> removal_noted(
            ds,
            from,
            removed_spelling(es, e, k),
        )
}

proof fn lemma_removals_noted_lower(
    tv0: Seq<TierView>,
    es: Seq<PrecEntry>,
    ds: Seq<Diagnostic>,
    f1: int,
    f2: int,
    ne: int,
    nk: int,
)
    requires
        removals_noted(tv0, es, ds, f2, ne, nk),
        f1 <= f2,
    ensures
        removals_noted(tv0, es, ds, f1, ne, nk),
{
    assert forall|e: int, k: int| #[trigger] absent_removal(tv0, es, e, k) && (e < ne || (e == ne && k < nk)) implies removal_noted(
        ds,
        f1,
        removed_spelling(es, e, k),
    ) by {
        let lit = removed_spelling(es, e, k);
        let p = choose|p: int| f2 <= p < ds.len() && #[trigger] ds[p].message@ == removal_message(lit) && ds[p].severity == Severity::Error;
        assert(ds[p].message@ == removal_message(lit));
    }
}

/// Whether, applying `blocks` to no tiers, each of the first `n` blocks'
/// removals of absent spellings is reported in `ds`.
pub open spec fn block_removals_noted(blocks: Seq<PrecedenceBlock>, ds: Seq<Diagnostic>, n: int) -> bool {
    forall|b: int|
        0 <= b < n ==> removals_noted(
            apply_blocks(Seq::empty(), blocks.take(b)),
            #[trigger] blocks[b].entries@,
            ds,
            0,
            blocks[b].entries@.len() as int,
            0,
        )
}

proof fn lemma_block_removals_step(blocks: Seq<PrecedenceBlock>, b: int, before: Seq<Diagnostic>, after: Seq<Diagnostic>)
    requires
        0 <= b < blocks.len(),
        block_removals_noted(blocks, before, b),
        after.len() >= before.len(),
        after.take(before.len() as int) == before,
        removals_noted(
            apply_blocks(Seq::empty(), blocks.take(b)),
            blocks[b].entries@,
            after,
            before.len() as int,
            blocks[b].entries@.len() as int,
            0,
        ),
    ensures
        block_removals_noted(blocks, after, b + 1),
{
    lemma_removals_noted_lower(
        apply_blocks(Seq::empty(), blocks.take(b)),
        blocks[b].entries@,
        after,
        0,
        before.len() as int,
        blocks[b].entries@.len() as int,
        0,
    );
    assert forall|bb: int| 0 <= bb < b + 1 implies removals_noted(
        apply_blocks(Seq::empty(), blocks.take(bb)),
        #[trigger] blocks[bb].entries@,
        after,
        0,
        blocks[bb].entries@.len() as int,
        0,
    ) by {
        if bb < b {
            lemma_removals_noted_keep(
                apply_blocks(Seq::empty(), blocks.take(bb)),
                blocks[bb].entries@,
                before,
                after,
                0,
                blocks[bb].entries@.len() as int,
                0,
            );
        }
    }
}

proof fn lemma_removals_noted_keep(
    tv0: Seq<TierView>,
    es: Seq<PrecEntry>,
    a: Seq<Diagnostic>,
    b: Seq<Diagnostic>,
    from: int,
    ne: int,
    nk: int,
)
    requires
        removals_noted(tv0, es, a, from, ne, nk),
        b.len() >= a.len(),
        b.take(a.len() as int) == a,
        0 <= from,
    ensures
        removals_noted(tv0, es, b, from, ne, nk),
{
    assert forall|e: int, k: int| #[trigger] absent_removal(tv0, es, e, k) && (e < ne || (e == ne && k < nk)) implies removal_noted(
        b,
        from,
        removed_spelling(es, e, k),
    ) by {
        let lit = removed_spelling(es, e, k);
        let p = choose|p: int| from <= p < a.len() && #[trigger] a[p].message@ == removal_message(lit) && a[p].severity == Severity::Error;
        assert(b.take(a.len() as int)[p] == b[p]);
        assert(b[p].message@ == removal_message(lit));
    }
}

/// The tiers after applying `es` in order.
pub open spec fn apply_entries(tv: Seq<TierView>, es: Seq<PrecEntry>) -> Seq<TierView>
    decreases es.len(),
{
    if es.len() == 0 {
        tv
    } else {
        apply_entry(apply_entries(tv, es.drop_last()), es.last())
    }
}

/// How many errors applying `es` reports.
pub open spec fn block_errors(tv: Seq<TierView>, es: Seq<PrecEntry>) -> nat
    decreases es.len(),
{
    if es.len() == 0 {
        0
    } else {
        block_errors(tv, es.drop_last()) + entry_errors(apply_entries(tv, es.drop_last()), es.last())
    }
}

/// The atom rule after `es`: the last `atom` entry's, else `a`.
pub open spec fn atom_after(a: Option<Seq<char>>, es: Seq<PrecEntry>) -> Option<Seq<char>>
    decreases es.len(),
{
    if es.len() == 0 {
        a
    } else {
        match es.last() {
            PrecEntry::Atom { rule, .. } => Some(rule.value@),
            _ => atom_after(a, es.drop_last()),
        }
    }
}

proof fn lemma_first_spelling(tv: Seq<TierView>, lit: Seq<char>, i: int)
    requires
        0 <= i <= tv.len(),
        forall|a: int| 0 <= a < i ==> !spells(#[trigger] tv[a], lit),
        i < tv.len() ==> spells(tv[i], lit),
    ensures
        first_spelling(tv, lit) == if i < tv.len() {
            i
        } else {
            -1
        },
    decreases i,
{
    if i > 0 {
        assert forall|a: int| 0 <= a < i - 1 implies !spells(#[trigger] tv.drop_first()[a], lit) by {
            assert(tv.drop_first()[a] == tv[a + 1]);
        }
        lemma_first_spelling(tv.drop_first(), lit, i - 1);
        assert(!spells(tv[0], lit));
    }
}

/// `literal`, the role the table answers it with: the tier's `-> role` when
/// there is one, else the built-in map.
fn resolve_role(op: &OpRef, tier_role: &Option<Spanned<String>>, prefix: bool) -> (r: Result<String, Diagnostic>)
    ensures
        tier_role matches Some(t) ==> r matches Ok(s) && s@ == t.value@,
        r matches Err(d) ==> d.severity == Severity::Error && tier_role is None,
        match r {
            Ok(s) => op_role(*op, *tier_role, prefix) == Some(s@),
            Err(_) => op_role(*op, *tier_role, prefix) is None,
        },
{
    match tier_role {
        Some(t) => Ok(owned(t.value.as_str())),
        None => {
            let found = if op.word {
                roles::role_for_word(op.literal.value.as_str(), prefix)
            } else {
                roles::role_for(op.literal.value.as_str(), prefix)
            };
            match found {
                Some(role) => Ok(owned(role)),
                None => Err(
                    Diagnostic::error(
                        cat3("no built-in role for operator `", op.literal.value.as_str(), "`").as_str(),
                    ).at(op.span).help(
                        "add an explicit binding, e.g. `-> pipe`, or bind the whole tier with `-> role`",
                    ),
                ),
            }
        },
    }
}

/// Whether every tier has an operator, and a tier bound to one role gives
/// that role to each of its operators.
pub open spec fn tiers_wf(tiers: Seq<Tier>) -> bool {
    forall|i: int| 0 <= i < tiers.len() ==> {
        &&& #[trigger] tiers[i].operators@.len() > 0
        &&& tiers[i].grouped_role matches Some(g) ==> forall|j: int|
            0 <= j < tiers[i].operators@.len() ==> #[trigger] tiers[i].operators@[j].role@ == g@
    }
}

/// Whether `new` extends `old` with errors only.
pub open spec fn appended_errors(old: Seq<Diagnostic>, new: Seq<Diagnostic>) -> bool {
    &&& new.len() >= old.len()
    &&& new.take(old.len() as int) == old
    &&& forall|k: int| old.len() <= k < new.len() ==> #[trigger] new[k].severity == Severity::Error
}

fn owned_vec(v: &Vec<&'static str>) -> (r: Vec<String>)
    ensures
        r@.len() == v@.len(),
        forall|i: int| 0 <= i < v@.len() ==> #[trigger] r@[i]@ == v@[i]@,
{
    let mut r: Vec<String> = Vec::new();
    let mut i: usize = 0;
    while i < v.len()
        invariant
            i <= v@.len(),
            r@.len() == i,
            forall|k: int| 0 <= k < i ==> #[trigger] r@[k]@ == v@[k]@,
        decreases v@.len() - i,
    {
        r.push(owned(v[i]));
        i = i + 1;
    }
    r
}

fn names_of(v: &Vec<Spanned<String>>) -> (r: Vec<String>)
    ensures
        r@.len() == v@.len(),
        forall|i: int| 0 <= i < v@.len() ==> #[trigger] r@[i]@ == v@[i].value@,
{
    let mut r: Vec<String> = Vec::new();
    let mut i: usize = 0;
    while i < v.len()
        invariant
            i <= v@.len(),
            r@.len() == i,
            forall|k: int| 0 <= k < i ==> #[trigger] r@[k]@ == v@[k].value@,
        decreases v@.len() - i,
    {
        r.push(owned(v[i].value.as_str()));
        i = i + 1;
    }
    r
}

/// Removes every operator spelled `literal` from tier `i`, and the tier
/// itself when that empties it.
fn remove_literal(table: &mut OperatorTable, i: usize, literal: &str)
    requires
        i < old(table).tiers@.len(),
        tiers_wf(old(table).tiers@),
    ensures
        tiers_wf(final(table).tiers@),
        tiers_view(final(table).tiers@) == remove_at(tiers_view(old(table).tiers@), i as int, literal@),
        final(table).atom_rule == old(table).atom_rule,
        final(table).preset == old(table).preset,
{
    let ghost tv = tiers_view(table.tiers@);
    let mut tier = table.tiers.remove(i);
    let ghost rest = table.tiers@;
    let ghost g = tier.grouped_role;
    let mut old_ops: Vec<Operator> = Vec::new();
    std::mem::swap(&mut old_ops, &mut tier.operators);
    let ghost orig = old_ops@;
    let ghost ov = orig.map_values(|o: Operator| op_view(o));
    let mut kept: Vec<Operator> = Vec::new();
    let ghost mut k: int = 0;
    proof {
        assert(forall|j: int| 0 <= j < orig.len() ==> (g matches Some(gr) ==> #[trigger] orig[j].role@ == gr@)) by {
            assert(tiers_wf(old(table).tiers@));
            assert(old(table).tiers@[i as int].operators@ == orig);
        }
        assert(ov.take(0) =~= Seq::<OpView>::empty());
        assert(orig.skip(0) =~= orig);
        assert(kept@.map_values(|o: Operator| op_view(o)) =~= Seq::<OpView>::empty());
    }
    while old_ops.len() > 0
        invariant
            0 <= k <= orig.len(),
            old_ops@ == orig.skip(k),
            ov == orig.map_values(|o: Operator| op_view(o)),
            kept@.map_values(|o: Operator| op_view(o)) == without(ov.take(k), literal@),
            forall|j: int| 0 <= j < old_ops@.len() ==> (g matches Some(gr) ==> #[trigger] old_ops@[j].role@ == gr@),
            forall|j: int| 0 <= j < kept@.len() ==> (g matches Some(gr) ==> #[trigger] kept@[j].role@ == gr@),
        decreases old_ops@.len(),
    {
        let o = old_ops.remove(0);
        proof {
            assert(o == orig[k]);
            assert(old_ops@ =~= orig.skip(k + 1));
            assert(ov.take(k + 1).drop_last() =~= ov.take(k));
            assert(ov.take(k + 1).last() == op_view(o));
        }
        if !str_eq(o.literal.as_str(), literal) {
            let ghost before = kept@;
            kept.push(o);
            proof {
                assert(kept@.map_values(|o: Operator| op_view(o)) =~= before.map_values(|o: Operator| op_view(o)).push(
                    op_view(o),
                ));
            }
        }
        proof { k = k + 1; }
    }
    proof {
        assert(ov.take(k) =~= ov);
        assert(tv[i as int].1 =~= ov);
    }
    tier.operators = kept;
    if tier.operators.len() > 0 {
        table.tiers.insert(i, tier);
        proof {
            assert(tiers_view(table.tiers@) =~= tv.update(i as int, (tv[i as int].0, without(tv[i as int].1, literal@), tv[i as int].2)));
        }
    } else {
        proof {
            assert(tiers_view(table.tiers@) =~= tv.remove(i as int));
        }
    }
    proof {
        assert(tiers_wf(table.tiers@)) by {
            assert forall|a: int| 0 <= a < table.tiers@.len() implies {
                &&& #[trigger] table.tiers@[a].operators@.len() > 0
                &&& table.tiers@[a].grouped_role matches Some(gg) ==> forall|j: int|
                    0 <= j < table.tiers@[a].operators@.len() ==> #[trigger] table.tiers@[a].operators@[j].role@ == gg@
            } by {
                if a < i {
                    assert(table.tiers@[a] == old(table).tiers@[a]);
                } else if a > i || tier.operators@.len() == 0 {
                    if tier.operators@.len() == 0 {
                        assert(table.tiers@[a] == old(table).tiers@[a + 1]);
                    } else {
                        assert(table.tiers@[a] == old(table).tiers@[a]);
                    }
                }
            }
        }
    }
}

/// Applies one `precedence` block to the table: `atom` names the rule the
/// driver folds over, `remove` takes spellings out of their tiers, and an
/// operator entry adds a tier on top or beside its anchor's. An operator
/// with no role, a removal of a spelling in no tier and an anchor in no
/// tier are each reported as one error.
fn apply_block(table: &mut OperatorTable, block: &PrecedenceBlock, diagnostics: &mut Vec<Diagnostic>)
    requires
        tiers_wf(old(table).tiers@),
    ensures
        tiers_wf(final(table).tiers@),
        final(table).preset == old(table).preset,
        tiers_view(final(table).tiers@) == apply_entries(tiers_view(old(table).tiers@), block.entries@),
        opt_str(final(table).atom_rule) == atom_after(opt_str(old(table).atom_rule), block.entries@),
        appended_errors(old(diagnostics)@, final(diagnostics)@),
        final(diagnostics)@.len() == old(diagnostics)@.len() + block_errors(
            tiers_view(old(table).tiers@),
            block.entries@,
        ),
        removals_noted(
            tiers_view(old(table).tiers@),
            block.entries@,
            final(diagnostics)@,
            old(diagnostics)@.len() as int,
            block.entries@.len() as int,
            0,
        ),
{
    let ghost start = diagnostics@;
    let ghost tv0 = tiers_view(table.tiers@);
    let ghost atom0 = opt_str(table.atom_rule);
    assert(start.take(start.len() as int) =~= start);
    let mut e: usize = 0;
    proof { assert(block.entries@.take(0) =~= Seq::<PrecEntry>::empty()); }
    while e < block.entries.len()
        invariant
            e <= block.entries@.len(),
            tiers_wf(table.tiers@),
            table.preset == old(table).preset,
            appended_errors(start, diagnostics@),
            tiers_view(table.tiers@) == apply_entries(tv0, block.entries@.take(e as int)),
            opt_str(table.atom_rule) == atom_after(atom0, block.entries@.take(e as int)),
            diagnostics@.len() == start.len() + block_errors(tv0, block.entries@.take(e as int)),
            removals_noted(tv0, block.entries@, diagnostics@, start.len() as int, e as int, 0),
        decreases block.entries@.len() - e,
    {
        let ghost es = block.entries@.take(e + 1);
        let ghost tv = tiers_view(table.tiers@);
        let ghost n0 = diagnostics@.len();
        let ghost d_iter = diagnostics@;
        proof {
            assert(es.drop_last() =~= block.entries@.take(e as int));
            assert(es.last() == block.entries@[e as int]);
        }
        match &block.entries[e] {
            PrecEntry::Atom { rule, .. } => {
                table.atom_rule = Some(owned(rule.value.as_str()));
            },
            PrecEntry::Remove { ops, span } => {
                let mut k: usize = 0;
                proof { assert(ops@.take(0) =~= Seq::<OpRef>::empty()); }
                while k < ops.len()
                    invariant
                        k <= ops@.len(),
                        tiers_wf(table.tiers@),
                        table.preset == old(table).preset,
                        opt_str(table.atom_rule) == atom_after(atom0, block.entries@.take(e as int)),
                        appended_errors(start, diagnostics@),
                        tiers_view(table.tiers@) == remove_all(tv, ops@.take(k as int)),
                        diagnostics@.len() == n0 + remove_errors(tv, ops@.take(k as int)),
                        block.entries@[e as int] == (PrecEntry::Remove { ops: *ops, span: *span }),
                        tv == apply_entries(tv0, block.entries@.take(e as int)),
                        e < block.entries@.len(),
                        removals_noted(tv0, block.entries@, diagnostics@, start.len() as int, e as int, k as int),
                    decreases ops@.len() - k,
                {
                    let ghost d_before = diagnostics@;
                    let op = &ops[k];
                    proof {
                        assert(ops@.take(k + 1).drop_last() =~= ops@.take(k as int));
                        assert(ops@.take(k + 1).last() == ops@[k as int]);
                    }
                    match table.find_tier_of(op.literal.value.as_str()) {
                        Some(i) => {
                            proof {
                                assert(!absent_removal(tv0, block.entries@, e as int, k as int));
                            }
                            remove_literal(table, i, op.literal.value.as_str());
                        },
                        None => {
                            let d = Diagnostic::error(
                                cat3("cannot remove `", op.literal.value.as_str(), "`: not in the table").as_str(),
                            ).at(op.span).help(
                                "check the spelling, or run `nh explain` to see the table",
                            );
                            diagnostics.push(d);
                            proof {
                                assert(diagnostics@.take(start.len() as int) =~= start);
                                assert(diagnostics@.take(d_before.len() as int) =~= d_before);
                                lemma_removals_noted_keep(tv0, block.entries@, d_before, diagnostics@, start.len() as int, e as int, k as int);
                                assert(diagnostics@[d_before.len() as int].message@ == removal_message(op.literal.value@));
                                assert(removal_noted(diagnostics@, start.len() as int, removed_spelling(block.entries@, e as int, k as int)));
                            }
                        },
                    }
                    k = k + 1;
                }
                proof { assert(ops@.take(ops@.len() as int) =~= ops@); }
            },
            PrecEntry::Op(op_entry) => {
                let fixity = op_entry.fixity.value;
                let prefix = fixity == Fixity::Prefix;
                let mut operators: Vec<Operator> = Vec::new();
                let mut k: usize = 0;
                proof {
                    assert(op_entry.ops@.take(0) =~= Seq::<OpRef>::empty());
                    assert(operators@.map_values(|o: Operator| op_view(o)) =~= Seq::<OpView>::empty());
                }
                while k < op_entry.ops.len()
                    invariant
                        k <= op_entry.ops@.len(),
                        prefix == (op_entry.fixity.value == Fixity::Prefix),
                        appended_errors(start, diagnostics@),
                        op_entry.role matches Some(g) ==> forall|j: int|
                            0 <= j < operators@.len() ==> #[trigger] operators@[j].role@ == g.value@,
                        operators@.map_values(|o: Operator| op_view(o)) == entry_ops(
                            *op_entry,
                            op_entry.ops@.take(k as int),
                        ),
                        diagnostics@.len() == n0 + role_errors(*op_entry, op_entry.ops@.take(k as int)),
                        n0 == d_iter.len(),
                        diagnostics@.take(d_iter.len() as int) == d_iter,
                    decreases op_entry.ops@.len() - k,
                {
                    let op = &op_entry.ops[k];
                    proof {
                        assert(op_entry.ops@.take(k + 1).drop_last() =~= op_entry.ops@.take(k as int));
                        assert(op_entry.ops@.take(k + 1).last() == op_entry.ops@[k as int]);
                    }
                    match resolve_role(op, &op_entry.role, prefix) {
                        Ok(role) => {
                            let lazy = if op_entry.lazy.len() == 0 {
                                owned_vec(&roles::default_lazy(role.as_str()))
                            } else {
                                names_of(&op_entry.lazy)
                            };
                            proof {
                                assert(lazy@.map_values(|s: String| s@) =~= entry_lazy(*op_entry, role@));
                            }
                            let ghost before = operators@;
                            let o = Operator {
                                literal: owned(op.literal.value.as_str()),
                                word: op.word,
                                role,
                                lazy,
                                span: Some(op.span),
                            };
                            operators.push(o);
                            proof {
                                assert(operators@.map_values(|o: Operator| op_view(o)) =~= before.map_values(
                                    |o: Operator| op_view(o),
                                ).push(op_view(o)));
                            }
                        },
                        Err(d) => {
                            let ghost b0 = diagnostics@;
                            diagnostics.push(d);
                            proof {
                                assert(diagnostics@.take(start.len() as int) =~= start);
                                assert(diagnostics@.take(d_iter.len() as int) =~= b0.take(d_iter.len() as int));
                            }
                        },
                    }
                    k = k + 1;
                }
                proof { assert(op_entry.ops@.take(op_entry.ops@.len() as int) =~= op_entry.ops@); }
                if operators.len() > 0 {
                    let grouped_role = match &op_entry.role {
                        Some(r) => Some(owned(r.value.as_str())),
                        None => None,
                    };
                    let tier = Tier { fixity, operators, grouped_role };
                    let ghost t = tier_view(tier);
                    match &op_entry.placement {
                        None => {
                            table.tiers.push(tier);
                            proof { assert(tiers_view(table.tiers@) =~= tv.push(t)); }
                        },
                        Some(p) => match table.find_tier_of(p.anchor.value.as_str()) {
                            Some(i) => {
                                // Tier 0 binds loosest, so "above" (tighter)
                                // means a higher index.
                                let n = table.tiers.len();
                                assert(i < n);
                                let at = match p.direction {
                                    Direction::Above => i + 1,
                                    Direction::Below => i,
                                };
                                table.tiers.insert(at, tier);
                                proof { assert(tiers_view(table.tiers@) =~= tv.insert(at as int, t)); }
                            },
                            None => {
                                let d = Diagnostic::error(
                                    cat3("unknown anchor operator `", p.anchor.value.as_str(), "`").as_str(),
                                ).at(p.anchor.span).help(
                                    "`above`/`below` must name an operator already in the table",
                                );
                                let ghost b0 = diagnostics@;
                                diagnostics.push(d);
                                proof {
                                    assert(diagnostics@.take(start.len() as int) =~= start);
                                    assert(diagnostics@.take(d_iter.len() as int) =~= b0.take(d_iter.len() as int));
                                }
                            },
                        },
                    }
                }
            },
        }
        proof {
            if block.entries@[e as int] is Atom {
                assert(diagnostics@.take(d_iter.len() as int) =~= d_iter);
            }
            if !(block.entries@[e as int] is Remove) {
                lemma_removals_noted_keep(tv0, block.entries@, d_iter, diagnostics@, start.len() as int, e as int, 0);
            }
            assert forall|x: int, y: int| #[trigger] absent_removal(tv0, block.entries@, x, y) && (x < e + 1 || (x == e + 1 && y < 0)) implies removal_noted(
                diagnostics@,
                start.len() as int,
                removed_spelling(block.entries@, x, y),
            ) by {
                if x == e {
                    assert(block.entries@[e as int] is Remove);
                }
            }
        }
        e = e + 1;
    }
    proof { assert(block.entries@.take(block.entries@.len() as int) =~= block.entries@); }
}

/// Whether `new` keeps `old` as its prefix.
pub open spec fn extends(old: Seq<Diagnostic>, new: Seq<Diagnostic>) -> bool {
    new.len() >= old.len() && new.take(old.len() as int) == old
}

proof fn lemma_extends_trans(a: Seq<Diagnostic>, b: Seq<Diagnostic>, c: Seq<Diagnostic>)
    requires
        extends(a, b),
        extends(b, c),
    ensures
        extends(a, c),
{
    assert(c.take(a.len() as int) =~= c.take(b.len() as int).take(a.len() as int));
}

proof fn lemma_extends_keeps_error(a: Seq<Diagnostic>, b: Seq<Diagnostic>)
    requires
        extends(a, b),
        has_error(a),
    ensures
        has_error(b),
{
    let w = choose|w: int| 0 <= w < a.len() && #[trigger] a[w].severity == Severity::Error;
    assert(b.take(a.len() as int)[w] == b[w]);
}

/// The tiers after applying `blocks` in order to a table with no preset.
pub open spec fn apply_blocks(tv: Seq<TierView>, blocks: Seq<PrecedenceBlock>) -> Seq<TierView>
    decreases blocks.len(),
{
    if blocks.len() == 0 {
        tv
    } else {
        apply_entries(apply_blocks(tv, blocks.drop_last()), blocks.last().entries@)
    }
}

pub open spec fn atom_after_blocks(a: Option<Seq<char>>, blocks: Seq<PrecedenceBlock>) -> Option<Seq<char>>
    decreases blocks.len(),
{
    if blocks.len() == 0 {
        a
    } else {
        atom_after(atom_after_blocks(a, blocks.drop_last()), blocks.last().entries@)
    }
}

/// How many errors applying `blocks` in order reports.
pub open spec fn blocks_errors(tv: Seq<TierView>, blocks: Seq<PrecedenceBlock>) -> nat
    decreases blocks.len(),
{
    if blocks.len() == 0 {
        0
    } else {
        blocks_errors(tv, blocks.drop_last()) + block_errors(
            apply_blocks(tv, blocks.drop_last()),
            blocks.last().entries@,
        )
    }
}

/// Where the last bare (not `override`) block among the first `n` of
/// `blocks` stands, or -1 if all of them are overrides.
pub open spec fn last_bare(blocks: Seq<PrecedenceBlock>, n: int) -> int
    decreases n,
{
    if n <= 0 {
        -1
    } else if !blocks[n - 1].is_override {
        n - 1
    } else {
        last_bare(blocks, n - 1)
    }
}

proof fn lemma_last_bare_range(blocks: Seq<PrecedenceBlock>, n: int)
    ensures
        -1 <= last_bare(blocks, n) < n || (n <= 0 && last_bare(blocks, n) == -1),
        last_bare(blocks, n) >= 0 ==> !blocks[last_bare(blocks, n)].is_override,
    decreases n,
{
    if n > 0 && blocks[n - 1].is_override {
        lemma_last_bare_range(blocks, n - 1);
    }
}

/// Resolves a grammar's operator declarations into one table.
///
/// Starts from the preset named by `use operators::`, parsed from its `.nh`
/// source into `sm`, then applies the grammar's own `precedence` blocks in
/// order (a bare block replaces a preset's tiers; `override` adjusts them).
/// Two `use operators::` declarations, or an unknown preset, fail. A
/// failure carries an error; a resolved table binds every role at one
/// fixity, has no empty tier, and gives a tier's role to each of its
/// operators. With no preset, the table is exactly what the blocks build,
/// and resolution fails exactly when a block reports an error or two
/// operators of one role end up at different fixities.
#[verifier::spinoff_prover]
#[verifier::rlimit(60)]
pub fn resolve(ast: &Ast, sm: &mut SourceMap) -> (r: Result<OperatorTable, Errors>)
    requires
        old(sm)@.len() < u32::MAX,
    ensures
        r matches Ok(t) ==> roles_consistent(t.tiers@) && tiers_wf(t.tiers@),
        r matches Err(e) ==> has_error(e.0@),
        ast.uses@.len() > 1 ==> r is Err,
        ast.uses@.len() > 0 && presets::source_spec(ast.uses@[0].preset.value@) is None ==> r is Err,
        ast.uses@.len() == 0 ==> (r matches Ok(t) ==> tiers_view(t.tiers@) == apply_blocks(
            Seq::empty(),
            ast.precedence@,
        ) && opt_str(t.atom_rule) == atom_after_blocks(None, ast.precedence@)),
        ast.uses@.len() == 0 && blocks_errors(Seq::empty(), ast.precedence@) > 0 ==> r is Err,
        ast.uses@.len() == 0 ==> ((r is Ok) == (blocks_errors(Seq::empty(), ast.precedence@) == 0
            && roles_consistent_view(apply_blocks(Seq::empty(), ast.precedence@)))),
        ast.uses@.len() == 0 && blocks_errors(Seq::empty(), ast.precedence@) == 0 && !roles_consistent_view(
            apply_blocks(Seq::empty(), ast.precedence@),
        ) ==> (r matches Err(e) && reports_fixity_conflict(e.0@)),
        ast.uses@.len() == 0 ==> (r matches Err(e) ==> block_removals_noted(
            ast.precedence@,
            e.0@,
            ast.precedence@.len() as int,
        )),
        r matches Ok(t) ==> (ast.uses@.len() == 0 <==> t.preset is None),
        r matches Ok(t) ==> (t.preset matches Some(p) ==> p@ == ast.uses@[0].preset.value@),
        // Over a preset, a bare block replaces the preset's tiers: the table is
        // what the last bare block and the blocks after it build from nothing.
        ast.uses@.len() > 0 && last_bare(ast.precedence@, ast.precedence@.len() as int) >= 0 ==> (r matches Ok(t)
            ==> tiers_view(t.tiers@) == apply_blocks(
            Seq::empty(),
            ast.precedence@.subrange(
                last_bare(ast.precedence@, ast.precedence@.len() as int),
                ast.precedence@.len() as int,
            ),
        )),
{
    let mut diagnostics: Vec<Diagnostic> = Vec::new();
    let mut table = OperatorTable::default();

    if ast.uses.len() > 1 {
        diagnostics.push(
            Diagnostic::error("more than one `use operators::` declaration").at(ast.uses[1].span).note(
                "first declared here",
                Some(ast.uses[0].span),
            ).help(
                "a grammar has exactly one operator table; use `precedence override` to adjust it",
            ),
        );
        assert(diagnostics@[0].severity == Severity::Error);
    }
    let ghost first = diagnostics@;
    assert(extends(first, diagnostics@)) by { assert(first.take(first.len() as int) =~= first); }

    if ast.uses.len() > 0 {
        let u = &ast.uses[0];
        match presets::source(u.preset.value.as_str()) {
            Some(src) => {
                table.preset = Some(owned(u.preset.value.as_str()));
                let name = cat3("<preset ", u.preset.value.as_str(), ">");
                match parse_source(sm, name.as_str(), src) {
                    Ok(preset_ast) => {
                        let mut b: usize = 0;
                        while b < preset_ast.precedence.len()
                            invariant
                                tiers_wf(table.tiers@),
                                extends(first, diagnostics@),
                                table.preset matches Some(p) && p@ == u.preset.value@,
                            decreases preset_ast.precedence@.len() - b,
                        {
                            let ghost before = diagnostics@;
                            apply_block(&mut table, &preset_ast.precedence[b], &mut diagnostics);
                            proof { lemma_extends_trans(first, before, diagnostics@); }
                            b = b + 1;
                        }
                    },
                    Err(e) => {
                        let ghost before = diagnostics@;
                        let mut errs = e.0;
                        diagnostics.append(&mut errs);
                        proof { assert(diagnostics@.take(before.len() as int) =~= before); }
                    },
                }
            },
            None => {
                let mut help = owned("available presets: ");
                let names = presets::names();
                let mut k: usize = 0;
                while k < names.len()
                    decreases names@.len() - k,
                {
                    if k > 0 {
                        help.append(", ");
                    }
                    help.append(names[k]);
                    k = k + 1;
                }
                let ghost before = diagnostics@;
                diagnostics.push(
                    Diagnostic::error(
                        cat3("unknown operator preset `", u.preset.value.as_str(), "`").as_str(),
                    ).at(u.preset.span).help(help.as_str()),
                );
                proof {
                    assert(diagnostics@.take(before.len() as int) =~= before);
                    assert(diagnostics@[before.len() as int].severity == Severity::Error);
                }
            },
        }
    }
    let ghost mid = diagnostics@;
    proof {
        assert(mid.take(mid.len() as int) =~= mid);
    }

    let mut b: usize = 0;
    proof {
        assert(ast.precedence@.take(0) =~= Seq::<PrecedenceBlock>::empty());
        if ast.uses@.len() == 0 {
            assert(tiers_view(table.tiers@) =~= Seq::<TierView>::empty());
        }
    }
    while b < ast.precedence.len()
        invariant
            b <= ast.precedence@.len(),
            tiers_wf(table.tiers@),
            extends(first, diagnostics@),
            extends(mid, diagnostics@),
            ast.uses@.len() > 0 && presets::source_spec(ast.uses@[0].preset.value@) is Some ==> (table.preset matches Some(
                p,
            ) && p@ == ast.uses@[0].preset.value@),
            table.preset is Some && last_bare(ast.precedence@, b as int) >= 0 ==> tiers_view(table.tiers@)
                == apply_blocks(
                Seq::empty(),
                ast.precedence@.subrange(last_bare(ast.precedence@, b as int), b as int),
            ),
            ast.uses@.len() == 0 ==> {
                &&& table.preset is None
                &&& tiers_view(table.tiers@) == apply_blocks(Seq::empty(), ast.precedence@.take(b as int))
                &&& opt_str(table.atom_rule) == atom_after_blocks(None, ast.precedence@.take(b as int))
                &&& diagnostics@.len() == blocks_errors(Seq::empty(), ast.precedence@.take(b as int))
                &&& forall|k: int| 0 <= k < diagnostics@.len() ==> #[trigger] diagnostics@[k].severity == Severity::Error
                &&& block_removals_noted(ast.precedence@, diagnostics@, b as int)
            },
        decreases ast.precedence@.len() - b,
    {
        let block = &ast.precedence[b];
        proof {
            assert(ast.precedence@.take(b + 1).drop_last() =~= ast.precedence@.take(b as int));
            assert(ast.precedence@.take(b + 1).last() == ast.precedence@[b as int]);
        }
        if !block.is_override && table.preset.is_some() && !table.is_empty() {
            let ghost before = diagnostics@;
            diagnostics.push(
                Diagnostic::warning("a bare `precedence` block replaces the preset table entirely").at(
                    block.span,
                ).help("write `precedence override { .. }` to adjust the preset instead"),
            );
            proof {
                assert(diagnostics@.take(before.len() as int) =~= before);
                lemma_extends_trans(first, before, diagnostics@);
                lemma_extends_trans(mid, before, diagnostics@);
            }
            table.tiers = Vec::new();
        }
        proof {
            if !block.is_override && table.preset is Some {
                if table.tiers@.len() > 0 {
                    assert(table.tiers@[0].operators@.len() > 0);
                }
                assert(tiers_view(table.tiers@) =~= Seq::<TierView>::empty());
            }
        }
        let ghost tv_mid = tiers_view(table.tiers@);
        let ghost before = diagnostics@;
        apply_block(&mut table, block, &mut diagnostics);
        proof {
            let pb = ast.precedence@;
            let lb = last_bare(pb, b + 1);
            lemma_last_bare_range(pb, b as int);
            if table.preset is Some && lb >= 0 {
                assert(pb.subrange(lb, b + 1).drop_last() =~= pb.subrange(lb, b as int));
                assert(pb.subrange(lb, b + 1).last() == pb[b as int]);
                if !block.is_override {
                    assert(lb == b);
                    assert(pb.subrange(lb, b as int) =~= Seq::<PrecedenceBlock>::empty());
                    assert(tv_mid == apply_blocks(Seq::empty(), pb.subrange(lb, b as int)));
                } else {
                    assert(lb == last_bare(pb, b as int));
                    assert(tv_mid == apply_blocks(Seq::empty(), pb.subrange(lb, b as int)));
                }
                assert(tiers_view(table.tiers@) == apply_entries(tv_mid, pb[b as int].entries@));
                assert(tiers_view(table.tiers@) == apply_blocks(Seq::empty(), pb.subrange(lb, b + 1)));
            }
        }
        proof {
            lemma_extends_trans(first, before, diagnostics@);
            lemma_extends_trans(mid, before, diagnostics@);
            if ast.uses@.len() == 0 {
                assert forall|k: int| 0 <= k < diagnostics@.len() implies #[trigger] diagnostics@[k].severity
                    == Severity::Error by {
                    if k < before.len() {
                        assert(diagnostics@.take(before.len() as int)[k] == diagnostics@[k]);
                    }
                }
                lemma_block_removals_step(ast.precedence@, b as int, before, diagnostics@);
            }
        }
        b = b + 1;
    }
    proof {
        assert(ast.precedence@.take(ast.precedence@.len() as int) =~= ast.precedence@);
        if ast.uses@.len() == 0 && diagnostics@.len() > 0 {
            assert(diagnostics@[0].severity == Severity::Error);
        }
    }

    let ghost before = diagnostics@;
    proof { lemma_roles_consistent_view(table.tiers@); }
    validate_roles(&table, &mut diagnostics);
    proof {
        lemma_extends_trans(first, before, diagnostics@);
        lemma_extends_trans(mid, before, diagnostics@);
        if ast.uses@.len() > 1 {
            lemma_extends_keeps_error(first, diagnostics@);
        }
        if ast.uses@.len() > 0 && presets::source_spec(ast.uses@[0].preset.value@) is None {
            lemma_extends_keeps_error(mid, diagnostics@);
        }
        if ast.uses@.len() == 0 && !roles_consistent_view(apply_blocks(Seq::empty(), ast.precedence@)) {
            assert(tiers_view(table.tiers@) == apply_blocks(Seq::empty(), ast.precedence@));
            assert(!roles_consistent(table.tiers@));
            assert(diagnostics@.len() > before.len());
        }
        if diagnostics@.len() > before.len() {
            assert(diagnostics@[before.len() as int].severity == Severity::Error);
            assert(fixity_conflict(diagnostics@[before.len() as int]));
            assert(exists|k: int| 0 <= k < diagnostics@.len() && fixity_conflict(#[trigger] diagnostics@[k]));
            assert(has_error(diagnostics@));
        }
    }

    if any_error_in(&diagnostics) {
        let ghost ds = diagnostics@;
        let e = Errors(diagnostics);
        proof {
            assert(e.0@ == ds);
            if ast.uses@.len() == 0 && blocks_errors(Seq::empty(), ast.precedence@) == 0 && !roles_consistent_view(
                apply_blocks(Seq::empty(), ast.precedence@),
            ) {
                assert(ds.len() > before.len());
                assert(fixity_conflict(e.0@[before.len() as int]));
                assert(reports_fixity_conflict(e.0@));
            }
        }
        Err(e)
    } else {
        proof {
            assert(!(ast.uses@.len() == 0 && blocks_errors(Seq::empty(), ast.precedence@) == 0 && !roles_consistent_view(
                apply_blocks(Seq::empty(), ast.precedence@),
            )));
        }
        Ok(table)
    }
}

// ---------------------------------------------------------------------------
// explain
// ---------------------------------------------------------------------------

pub open spec fn fixity_text(f: Fixity) -> Seq<char> {
    match f {
        Fixity::Left => "left"@,
        Fixity::Right => "right"@,
        Fixity::Prefix => "prefix"@,
        Fixity::Postfix => "postfix"@,
    }
}

fn fixity_word(f: Fixity) -> (s: &'static str)
    ensures
        s@ == fixity_text(f),
{
    match f {
        Fixity::Left => "left",
        Fixity::Right => "right",
        Fixity::Prefix => "prefix",
        Fixity::Postfix => "postfix",
    }
}

/// `s` without its trailing spaces and tabs.
pub open spec fn strip_blanks(s: Seq<char>) -> Seq<char>
    decreases s.len(),
{
    if s.len() > 0 && (s.last() == ' ' || s.last() == '\t') {
        strip_blanks(s.drop_last())
    } else {
        s
    }
}

proof fn lemma_strip_blanks(s: Seq<char>, t: Seq<char>)
    requires
        without_trailing_blanks(s, t),
    ensures
        t == strip_blanks(s),
    decreases s.len(),
{
    let end = choose|end: int|
        0 <= end <= s.len() && t == s.subrange(0, end) && (forall|j: int|
            end <= j < s.len() ==> #[trigger] s[j] == ' ' || s[j] == '\t') && (end > 0 ==> s[end - 1] != ' '
            && s[end - 1] != '\t');
    if s.len() > 0 && (s.last() == ' ' || s.last() == '\t') {
        assert(end < s.len());
        let d = s.drop_last();
        assert(t == d.subrange(0, end));
        assert forall|j: int| end <= j < d.len() implies #[trigger] d[j] == ' ' || d[j] == '\t' by {
            assert(d[j] == s[j]);
        }
        if end > 0 {
            assert(d[end - 1] == s[end - 1]);
        }
        assert(without_trailing_blanks(d, t));
        lemma_strip_blanks(d, t);
    } else {
        if end < s.len() {
            assert(s[s.len() - 1] == ' ' || s[s.len() - 1] == '\t');
        }
        assert(end == s.len());
        assert(t =~= s);
    }
}

/// The bytes of the operators' literals each with one separator, as the
/// width is measured: a literal, or a running sum, of 2^32 bytes or more
/// is not counted.
pub open spec fn joined_bytes(ops: Seq<Operator>) -> int
    decreases ops.len(),
{
    if ops.len() == 0 {
        0
    } else {
        let w = joined_bytes(ops.drop_last());
        let b = utf8_bytes(ops.last().literal@);
        if w < 0x1_0000_0000 && b < 0x1_0000_0000 {
            w + b + 1
        } else {
            w
        }
    }
}

/// The byte length of a tier's operators joined by single spaces.
pub open spec fn tier_width(t: Tier) -> int {
    let w = joined_bytes(t.operators@);
    if w > 0 {
        w - 1
    } else {
        0
    }
}

/// The operator column's width: the widest tier, at least 4, a tier of
/// 65536 bytes or more not counted.
pub open spec fn table_width(ts: Seq<Tier>) -> int
    decreases ts.len(),
{
    if ts.len() == 0 {
        4
    } else {
        let w = table_width(ts.drop_last());
        let j = tier_width(ts.last());
        if j > w && j < 0x1_0000 {
            j
        } else {
            w
        }
    }
}

pub open spec fn literals(ops: Seq<Operator>) -> Seq<Seq<char>> {
    ops.map_values(|o: Operator| o.literal@)
}

/// Every lazy operand name of `ops`, in order.
pub open spec fn lazy_flat(ops: Seq<Operator>) -> Seq<Seq<char>>
    decreases ops.len(),
{
    if ops.len() == 0 {
        Seq::empty()
    } else {
        lazy_flat(ops.drop_last()) + crate::codegen::drift::views(ops.last().lazy@)
    }
}

/// The lazy operand names of `ops`, ascending and each once.
pub open spec fn lazy_sorted(ops: Seq<Operator>) -> Seq<Seq<char>> {
    choose|v: Seq<Seq<char>>|
        crate::lower::resolve::ascending(v) && forall|x: Seq<char>| #[trigger] v.contains(x) == lazy_flat(ops).contains(x)
}

/// The roles of `ops` in order, a role repeated by the next operator
/// written once.
pub open spec fn role_list(ops: Seq<Operator>) -> Seq<Seq<char>>
    decreases ops.len(),
{
    if ops.len() == 0 {
        Seq::empty()
    } else if ops.len() > 1 && ops[ops.len() - 2].role@ == ops.last().role@ {
        role_list(ops.drop_last())
    } else {
        role_list(ops.drop_last()).push(ops.last().role@)
    }
}

proof fn lemma_role_list_len(ops: Seq<Operator>)
    ensures
        (role_list(ops).len() > 0) == (ops.len() > 0),
    decreases ops.len(),
{
    if ops.len() > 1 {
        lemma_role_list_len(ops.drop_last());
    }
}

/// `n` right-aligned in three columns.
pub open spec fn pad_number(n: nat) -> Seq<char> {
    let d = crate::text::decimal(n);
    crate::text::repeat_char(' ', if d.len() < 3 { (3 - d.len()) as nat } else { 0 }) + d
}

/// `s` padded with spaces to `width` characters.
pub open spec fn padded(s: Seq<char>, width: int) -> Seq<char> {
    s + crate::text::repeat_char(' ', if s.len() < width { (width - s.len()) as nat } else { 0 })
}

pub open spec fn lazy_text(v: Seq<Seq<char>>) -> Seq<char> {
    if v.len() > 0 {
        " lazy("@ + crate::codegen::drift::joined(v, ", "@) + ")"@
    } else {
        Seq::empty()
    }
}

pub open spec fn roles_text(t: Tier) -> Seq<char> {
    match t.grouped_role {
        Some(r) => r@,
        None => crate::codegen::drift::joined(role_list(t.operators@), ", "@),
    }
}

/// One line of the listing: the precedence number, the operators, the
/// fixity, the lazy operands, the roles; trailing blanks removed.
pub open spec fn tier_line(t: Tier, num: nat, width: int) -> Seq<char> {
    strip_blanks(
        pad_number(num) + "  "@ + padded(crate::codegen::drift::joined(literals(t.operators@), " "@), width) + "  "@
            + padded(fixity_text(t.fixity), 7) + lazy_text(lazy_sorted(t.operators@)) + "  -> "@ + roles_text(t),
    )
}

/// The lines of the tiers that have operators, tier `i` numbered `n - i`.
pub open spec fn tier_lines(ts: Seq<Tier>, n: nat, width: int) -> Seq<char>
    decreases ts.len(),
{
    if ts.len() == 0 {
        Seq::empty()
    } else {
        tier_lines(ts.drop_last(), n, width) + if ts.last().operators@.len() > 0 {
            tier_line(ts.last(), (n - (ts.len() - 1)) as nat, width) + "\n"@
        } else {
            Seq::empty()
        }
    }
}

pub open spec fn preset_text(p: Option<String>) -> Seq<char> {
    match p {
        Some(name) => "preset: operators::"@ + name@ + "\n\n"@,
        None => Seq::empty(),
    }
}

pub open spec fn atom_text(a: Option<String>) -> Seq<char> {
    match a {
        Some(rule) => "\natom: `"@ + rule@ + "`\n"@,
        None => "\natom: (none declared)\n"@,
    }
}

/// The whole listing of a table.
pub open spec fn explain_text(table: OperatorTable) -> Seq<char> {
    preset_text(table.preset) + if table.tiers@.len() == 0 {
        "(empty table)\n"@
    } else {
        tier_lines(table.tiers@, table.tiers@.len(), table_width(table.tiers@)) + atom_text(table.atom_rule)
    }
}

/// Pads `s` on the right with spaces to `width` characters.
fn push_padded(out: &mut String, s: &str, width: usize)
    ensures
        final(out)@ == old(out)@ + s@ + crate::text::repeat_char(
            ' ',
            if s@.len() < width {
                (width - s@.len()) as nat
            } else {
                0
            },
        ),
{
    let ghost o0 = out@;
    out.append(s);
    proof {
        if s@.len() >= width {
            assert(out@ =~= o0 + s@ + crate::text::repeat_char(' ', 0));
        }
    }
    let n = crate::text::chars_of(s).len();
    if n < width {
        push_repeat(out, ' ', width - n);
    }
}

/// Whether `t` is `s` without its trailing spaces and tabs.
pub open spec fn without_trailing_blanks(s: Seq<char>, t: Seq<char>) -> bool {
    exists|end: int|
        0 <= end <= s.len() && t == s.subrange(0, end) && (forall|j: int|
            end <= j < s.len() ==> #[trigger] s[j] == ' ' || s[j] == '\t') && (end > 0 ==> s[end - 1] != ' '
            && s[end - 1] != '\t')
}

fn trim_end_spaces(s: String) -> (r: String)
    ensures
        r@ == strip_blanks(s@),
{
    let v = crate::text::chars_of(s.as_str());
    let mut end = v.len();
    while end > 0 && (v[end - 1] == ' ' || v[end - 1] == '\t')
        invariant
            end <= v@.len(),
            forall|j: int| end <= j < v@.len() ==> #[trigger] v@[j] == ' ' || v@[j] == '\t',
        decreases end,
    {
        end = end - 1;
    }
    let mut out = String::new();
    let mut i: usize = 0;
    while i < end
        invariant
            end <= v@.len(),
            i <= end,
            out@ == v@.subrange(0, i as int),
        decreases end - i,
    {
        push_char(&mut out, v[i]);
        i = i + 1;
        proof { assert(out@ =~= v@.subrange(0, i as int)); }
    }
    proof {
        assert(without_trailing_blanks(s@, out@));
        lemma_strip_blanks(s@, out@);
    }
    out
}

fn table_width_of(table: &OperatorTable) -> (width: usize)
    ensures
        width as int == table_width(table.tiers@),
{
    let mut width: usize = 4;
    let mut t: usize = 0;
    proof { assert(table.tiers@.take(0) =~= Seq::<Tier>::empty()); }
    while t < table.tiers.len()
        invariant
            t <= table.tiers@.len(),
            width as int == table_width(table.tiers@.take(t as int)),
        decreases table.tiers@.len() - t,
    {
        let tier = &table.tiers[t];
        let mut w: u128 = 0;
        let mut k: usize = 0;
        proof { assert(tier.operators@.take(0) =~= Seq::<Operator>::empty()); }
        while k < tier.operators.len()
            invariant
                k <= tier.operators@.len(),
                w <= 0x2_0000_0001,
                w as int == joined_bytes(tier.operators@.take(k as int)),
            decreases tier.operators@.len() - k,
        {
            let b = byte_len(tier.operators[k].literal.as_str());
            proof {
                assert(tier.operators@.take(k + 1).drop_last() =~= tier.operators@.take(k as int));
                assert(tier.operators@.take(k + 1).last() == tier.operators@[k as int]);
            }
            if w < 0x1_0000_0000 && b < 0x1_0000_0000 {
                w = w + b + 1;
            }
            k = k + 1;
        }
        proof {
            assert(tier.operators@.take(tier.operators@.len() as int) =~= tier.operators@);
            assert(table.tiers@.take(t + 1).drop_last() =~= table.tiers@.take(t as int));
            assert(table.tiers@.take(t + 1).last() == table.tiers@[t as int]);
        }
        let joined: u128 = if w > 0 { w - 1 } else { 0 };
        if joined > width as u128 && joined < 0x1_0000 {
            width = joined as usize;
        }
        t = t + 1;
    }
    proof { assert(table.tiers@.take(table.tiers@.len() as int) =~= table.tiers@); }
    width
}

/// The operators' literals joined by single spaces.
fn ops_text_of(ops: &Vec<Operator>) -> (s: String)
    ensures
        s@ == crate::codegen::drift::joined(literals(ops@), " "@),
{
    let mut lits: Vec<String> = Vec::new();
    let mut k: usize = 0;
    while k < ops.len()
        invariant
            k <= ops@.len(),
            crate::codegen::drift::views(lits@) == literals(ops@.take(k as int)),
        decreases ops@.len() - k,
    {
        let ghost before = lits@;
        lits.push(owned(ops[k].literal.as_str()));
        proof {
            let a = crate::codegen::drift::views(lits@);
            let b = literals(ops@.take(k + 1));
            assert(crate::codegen::drift::views(before).len() == before.len());
            assert(literals(ops@.take(k as int)).len() == k);
            assert(a.len() == b.len());
            assert forall|j: int| 0 <= j < a.len() implies a[j] == b[j] by {
                if j < k {
                    assert(a[j] == before[j]@);
                    assert(crate::codegen::drift::views(before)[j] == before[j]@);
                    assert(literals(ops@.take(k as int))[j] == b[j]);
                } else {
                    assert(a[j] == lits@[j]@);
                }
            }
            assert(a =~= b);
        }
        k = k + 1;
    }
    proof { assert(ops@.take(ops@.len() as int) =~= ops@); }
    crate::codegen::drift::join(&lits, " ")
}

/// The lazy operand names of the operators, ascending and each once.
fn lazy_names_of(ops: &Vec<Operator>) -> (v: Vec<String>)
    ensures
        crate::codegen::drift::views(v@) == lazy_sorted(ops@),
{
    let mut all: Vec<String> = Vec::new();
    let mut k: usize = 0;
    proof { assert(ops@.take(0) =~= Seq::<Operator>::empty()); }
    while k < ops.len()
        invariant
            k <= ops@.len(),
            crate::codegen::drift::views(all@) == lazy_flat(ops@.take(k as int)),
        decreases ops@.len() - k,
    {
        let op = &ops[k];
        let ghost base = crate::codegen::drift::views(all@);
        let mut m: usize = 0;
        while m < op.lazy.len()
            invariant
                m <= op.lazy@.len(),
                crate::codegen::drift::views(all@) == base + crate::codegen::drift::views(op.lazy@.take(m as int)),
            decreases op.lazy@.len() - m,
        {
            let ghost before = all@;
            all.push(owned(op.lazy[m].as_str()));
            proof {
                assert(crate::codegen::drift::views(op.lazy@.take(m + 1)) =~= crate::codegen::drift::views(
                    op.lazy@.take(m as int),
                ).push(op.lazy@[m as int]@));
                assert(crate::codegen::drift::views(all@) =~= crate::codegen::drift::views(before).push(all@[all@.len() - 1]@));
                assert(crate::codegen::drift::views(all@) =~= base + crate::codegen::drift::views(op.lazy@.take(m + 1)));
            }
            m = m + 1;
        }
        proof {
            assert(op.lazy@.take(op.lazy@.len() as int) =~= op.lazy@);
            assert(ops@.take(k + 1).drop_last() =~= ops@.take(k as int));
            assert(ops@.take(k + 1).last() == ops@[k as int]);
        }
        k = k + 1;
    }
    proof { assert(ops@.take(ops@.len() as int) =~= ops@); }
    let r = crate::lower::resolve::sort_dedup(all);
    proof {
        let rv = crate::codegen::drift::views(r@);
        assert(rv =~= crate::lower::resolve::strs(r@));
        assert(crate::codegen::drift::views(all@) =~= crate::lower::resolve::strs(all@));
        assert(crate::lower::resolve::ascending(rv)) by {
            assert forall|i: int, j: int| 0 <= i < j < rv.len() implies seq_less(#[trigger] rv[i], #[trigger] rv[j]) by {
                assert(rv[i] == r@[i]@);
                assert(rv[j] == r@[j]@);
            }
        }
        assert(forall|x: Seq<char>| #[trigger] rv.contains(x) == lazy_flat(ops@).contains(x));
        let c = lazy_sorted(ops@);
        assert(crate::lower::resolve::ascending(c) && forall|x: Seq<char>| #[trigger] c.contains(x) == lazy_flat(ops@).contains(x));
        crate::text::lemma_sorted_same_keys(rv, c);
    }
    r
}

/// The roles of the operators in order, a repeat of the previous one
/// written once, joined by commas.
fn roles_of(ops: &Vec<Operator>) -> (s: String)
    ensures
        s@ == crate::codegen::drift::joined(role_list(ops@), ", "@),
{
    let mut s = String::new();
    let mut k: usize = 0;
    let mut last: Option<&str> = None;
    proof { assert(ops@.take(0) =~= Seq::<Operator>::empty()); }
    while k < ops.len()
        invariant
            k <= ops@.len(),
            s@ == crate::codegen::drift::joined(role_list(ops@.take(k as int)), ", "@),
            k == 0 ==> last is None,
            k > 0 ==> (last matches Some(l) && l@ == ops@[k - 1].role@),
        decreases ops@.len() - k,
    {
        let role = ops[k].role.as_str();
        let repeat = match last {
            Some(l) => str_eq(l, role),
            None => false,
        };
        let ghost prev = role_list(ops@.take(k as int));
        proof {
            let t = ops@.take(k + 1);
            assert(t.drop_last() =~= ops@.take(k as int));
            assert(t.last() == ops@[k as int]);
            if k > 0 {
                assert(t[t.len() - 2] == ops@[k - 1]);
            }
            lemma_role_list_len(ops@.take(k as int));
        }
        if !repeat {
            if last.is_some() {
                s.append(", ");
            }
            s.append(role);
            proof {
                let q = prev.push(role@);
                if prev.len() > 0 {
                    assert(q.drop_last() =~= prev);
                } else {
                    assert(q.len() == 1);
                }
            }
        }
        last = Some(role);
        k = k + 1;
    }
    proof { assert(ops@.take(ops@.len() as int) =~= ops@); }
    s
}

/// One line of the listing for `tier`, numbered `num`, with the operator
/// column `width` wide.
#[verifier::spinoff_prover]
fn tier_line_of(tier: &Tier, num: usize, width: usize) -> (line: String)
    ensures
        line@ == tier_line(*tier, num as nat, width as int),
{
    let mut line = String::new();
    let num_s = crate::text::decimal_string(num as u64);
    let numlen = crate::text::chars_of(num_s.as_str()).len();
    if numlen < 3 {
        push_repeat(&mut line, ' ', 3 - numlen);
    }
    line.append(num_s.as_str());
    proof { assert(line@ =~= pad_number(num as nat)); }
    let ghost g1 = line@;
    line.append("  ");
    let ops = ops_text_of(&tier.operators);
    push_padded(&mut line, ops.as_str(), width);
    let ghost g2 = line@;
    proof {
        assert(g2 =~= g1 + "  "@ + padded(crate::codegen::drift::joined(literals(tier.operators@), " "@), width as int));
    }
    line.append("  ");
    push_padded(&mut line, fixity_word(tier.fixity), 7);
    let ghost g3 = line@;
    proof { assert(g3 =~= g2 + "  "@ + padded(fixity_text(tier.fixity), 7)); }
    let lazy = lazy_names_of(&tier.operators);
    if lazy.len() > 0 {
        line.append(" lazy(");
        let j = crate::codegen::drift::join(&lazy, ", ");
        line.append(j.as_str());
        line.append(")");
    }
    let ghost g4 = line@;
    proof { assert(g4 =~= g3 + lazy_text(lazy_sorted(tier.operators@))); }
    line.append("  -> ");
    match &tier.grouped_role {
        Some(r) => line.append(r.as_str()),
        None => {
            let rs = roles_of(&tier.operators);
            line.append(rs.as_str());
        },
    }
    proof { assert(line@ =~= g4 + "  -> "@ + roles_text(*tier)); }
    trim_end_spaces(line)
}

/// Renders the resolved table as a precedence listing, loosest tier with
/// the highest number, each line with its operators, fixity, laziness and
/// roles, then the atom rule.
pub fn explain(table: &OperatorTable) -> (out: String)
    ensures
        out@ == explain_text(*table),
{
    let mut out = String::new();
    match &table.preset {
        Some(p) => {
            out.append("preset: operators::");
            out.append(p.as_str());
            out.append("\n\n");
        },
        None => {},
    }
    proof { assert(out@ =~= preset_text(table.preset)); }
    if table.tiers.len() == 0 {
        out.append("(empty table)\n");
        return out;
    }
    let width = table_width_of(table);
    let n = table.tiers.len();
    let ghost head = out@;
    let mut i: usize = 0;
    proof { assert(table.tiers@.take(0) =~= Seq::<Tier>::empty()); }
    while i < n
        invariant
            n == table.tiers@.len(),
            i <= n,
            width as int == table_width(table.tiers@),
            head == preset_text(table.preset),
            out@ == head + tier_lines(table.tiers@.take(i as int), n as nat, width as int),
        decreases n - i,
    {
        let tier = &table.tiers[i];
        let ghost before = out@;
        proof {
            let t = table.tiers@.take(i + 1);
            assert(t.drop_last() =~= table.tiers@.take(i as int));
            assert(t.last() == table.tiers@[i as int]);
        }
        if tier.operators.len() > 0 {
            let line = tier_line_of(tier, n - i, width);
            out.append(line.as_str());
            push_char(&mut out, '\n');
            proof {
                reveal_strlit("\n");
                assert(out@ =~= before + (tier_line(*tier, (n - i) as nat, width as int) + "\n"@));
            }
        } else {
            proof { assert(out@ =~= before + Seq::<char>::empty()); }
        }
        i = i + 1;
    }
    proof { assert(table.tiers@.take(n as int) =~= table.tiers@); }
    let ghost body = out@;
    match &table.atom_rule {
        Some(rule) => {
            out.append("\natom: `");
            out.append(rule.as_str());
            out.append("`\n");
        },
        None => out.append("\natom: (none declared)\n"),
    }
    proof { assert(out@ =~= body + atom_text(table.atom_rule)); }
    out
}

} // verus!
