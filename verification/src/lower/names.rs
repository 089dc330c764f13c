//! Naming conventions for generated `.pest` rules.
//!
//! Every synthesised rule carries an `nh_` prefix so it can never collide
//! with a user's token or rule name. The one exception is `expr`, which is
//! deliberately user-facing.

use vstd::prelude::*;
use crate::text::{cat2, cat3, chars_of, decimal, decimal_string_wide, lemma_decimal_injective, lower_char, owned, push_char, str_eq, to_lower_char};

verus! {

pub const PREFIX: &'static str = "nh_";

/// `nh_skip_<name>`
pub fn skip(name: &str) -> (s: String)
    ensures
        s@ == "nh_skip_"@ + name@,
{
    cat2("nh_skip_", name)
}

/// `nh_cont_<token>`: what may continue an identifier of `token`.
pub fn continuation(token: &str) -> (s: String)
    ensures
        s@ == "nh_cont_"@ + token@,
{
    cat2("nh_cont_", token)
}

/// `nh_reserved_<token>`: the words `token` must not match.
pub fn reserved(token: &str) -> (s: String)
    ensures
        s@ == "nh_reserved_"@ + token@,
{
    cat2("nh_reserved_", token)
}

/// `nh_ok_<rule>`: the real body of a rule that has error recovery.
pub fn ok(rule: &str) -> (s: String)
    ensures
        s@ == "nh_ok_"@ + rule@,
{
    cat2("nh_ok_", rule)
}

/// `nh_error_<rule>`: the error alternative of a rule that recovers.
pub fn error(rule: &str) -> (s: String)
    ensures
        s@ == "nh_error_"@ + rule@,
{
    cat2("nh_error_", rule)
}

/// `s` with every `.` replaced by `_`.
pub open spec fn dots_to_underscores(s: Seq<char>) -> Seq<char> {
    s.map_values(|c: char| if c == '.' { '_' } else { c })
}

/// `nh_expect_<target>_<literal>`: a literal promoted to its own rule so it
/// can carry an `expect` label. Named after target and literal both, because
/// one character can carry different messages in different rules.
pub fn expectation(target: &str, literal: &str) -> (s: String)
    ensures
        s@ == "nh_expect_"@ + dots_to_underscores(target@) + "_"@ + symbolic_spec(literal@),
{
    let t = chars_of(target);
    let mut out = owned("nh_expect_");
    let ghost head = out@;
    let mut i: usize = 0;
    while i < t.len()
        invariant
            t@ == target@,
            i <= t@.len(),
            out@ == head + dots_to_underscores(t@.take(i as int)),
        decreases t@.len() - i,
    {
        push_char(&mut out, if t[i] == '.' { '_' } else { t[i] });
        assert(dots_to_underscores(t@.take(i + 1)) =~= dots_to_underscores(t@.take(i as int)).push(
            if t@[i as int] == '.' { '_' } else { t@[i as int] },
        ));
        i = i + 1;
    }
    assert(t@.take(t@.len() as int) == t@);
    out.append("_");
    let sym = symbolic(literal);
    out.append(sym.as_str());
    out
}

/// `<rule>_<label>`: the rule for a labelled alternative, which is also its
/// handler's name.
pub fn alternative(rule: &str, label: &str) -> (s: String)
    ensures
        s@ == rule@ + "_"@ + label@,
{
    cat3(rule, "_", label)
}

pub open spec fn is_ascii_alnum(c: char) -> bool {
    ('a' <= c && c <= 'z') || ('A' <= c && c <= 'Z') || ('0' <= c && c <= '9')
}

/// The name of a punctuation character in a symbolic name.
pub open spec fn piece(c: char) -> Seq<char> {
    if c == '+' { "plus"@ }
    else if c == '-' { "minus"@ }
    else if c == '*' { "star"@ }
    else if c == '/' { "slash"@ }
    else if c == '%' { "percent"@ }
    else if c == '=' { "eq"@ }
    else if c == '<' { "lt"@ }
    else if c == '>' { "gt"@ }
    else if c == '!' { "bang"@ }
    else if c == '&' { "amp"@ }
    else if c == '|' { "pipe"@ }
    else if c == '^' { "caret"@ }
    else if c == '~' { "tilde"@ }
    else if c == '?' { "question"@ }
    else if c == ':' { "colon"@ }
    else if c == '.' { "dot"@ }
    else if c == ',' { "comma"@ }
    else if c == ';' { "semi"@ }
    else if c == '@' { "at"@ }
    else if c == '#' { "hash"@ }
    else if c == '$' { "dollar"@ }
    else if c == '\\' { "backslash"@ }
    else if c == '(' { "lparen"@ }
    else if c == ')' { "rparen"@ }
    else if c == '[' { "lbrack"@ }
    else if c == ']' { "rbrack"@ }
    else if c == '{' { "lbrace"@ }
    else if c == '}' { "rbrace"@ }
    else { "x"@ }
}

fn piece_of(c: char) -> (s: &'static str)
    ensures
        s@ == piece(c),
{
    if c == '+' { "plus" }
    else if c == '-' { "minus" }
    else if c == '*' { "star" }
    else if c == '/' { "slash" }
    else if c == '%' { "percent" }
    else if c == '=' { "eq" }
    else if c == '<' { "lt" }
    else if c == '>' { "gt" }
    else if c == '!' { "bang" }
    else if c == '&' { "amp" }
    else if c == '|' { "pipe" }
    else if c == '^' { "caret" }
    else if c == '~' { "tilde" }
    else if c == '?' { "question" }
    else if c == ':' { "colon" }
    else if c == '.' { "dot" }
    else if c == ',' { "comma" }
    else if c == ';' { "semi" }
    else if c == '@' { "at" }
    else if c == '#' { "hash" }
    else if c == '$' { "dollar" }
    else if c == '\\' { "backslash" }
    else if c == '(' { "lparen" }
    else if c == ')' { "rparen" }
    else if c == '[' { "lbrack" }
    else if c == ']' { "rbrack" }
    else if c == '{' { "lbrace" }
    else if c == '}' { "rbrace" }
    else { "x" }
}

/// Letters and digits are kept, lower-cased; each other character becomes
/// its name, joined to what precedes it by `_`.
pub open spec fn symbolic_acc(s: Seq<char>) -> Seq<char>
    decreases s.len(),
{
    if s.len() == 0 {
        Seq::empty()
    } else {
        let prev = symbolic_acc(s.drop_last());
        let c = s.last();
        if is_ascii_alnum(c) {
            prev.push(lower_char(c))
        } else {
            (if prev.len() > 0 { prev.push('_') } else { prev }) + piece(c)
        }
    }
}

pub open spec fn symbolic_spec(s: Seq<char>) -> Seq<char> {
    if symbolic_acc(s).len() == 0 {
        "op"@
    } else {
        symbolic_acc(s)
    }
}

/// Turns an operator spelling into an identifier fragment: `+=` becomes
/// `plus_eq`, `<<` becomes `lt_lt`, `AND` becomes `and`.
pub fn symbolic(literal: &str) -> (s: String)
    ensures
        s@ == symbolic_spec(literal@),
{
    let v = chars_of(literal);
    let mut out = String::new();
    let mut i: usize = 0;
    while i < v.len()
        invariant
            v@ == literal@,
            i <= v@.len(),
            out@ == symbolic_acc(v@.take(i as int)),
        decreases v@.len() - i,
    {
        let c = v[i];
        assert(v@.take(i + 1).drop_last() == v@.take(i as int));
        if ('a' <= c && c <= 'z') || ('A' <= c && c <= 'Z') || ('0' <= c && c <= '9') {
            push_char(&mut out, to_lower_char(c));
        } else {
            if out.as_str().unicode_len() > 0 {
                push_char(&mut out, '_');
            }
            out.append(piece_of(c));
        }
        i = i + 1;
    }
    assert(v@.take(v@.len() as int) == v@);
    if out.as_str().unicode_len() == 0 {
        out.append("op");
    }
    out
}

/// `base_<n>`: the `n`th alternative to a taken `base`.
pub open spec fn numbered(base: Seq<char>, n: nat) -> Seq<char> {
    base + seq!['_'] + decimal(n)
}

/// Allocates unique generated names, appending a numeric suffix on
/// collision.
pub struct Allocator {
    /// Each name handed out or reserved, with the last suffix tried for it
    /// as a base.
    taken: Vec<(String, usize)>,
}

impl View for Allocator {
    type V = Set<Seq<char>>;

    /// The names that are taken.
    closed spec fn view(&self) -> Set<Seq<char>> {
        taken_names(self.taken@)
    }
}

/// The suffix last handed out for `k` as a base: that of the first entry
/// for `k`, or 0.
spec fn hint_in(s: Seq<(String, usize)>, k: Seq<char>) -> nat
    decreases s.len(),
{
    if s.len() == 0 {
        0
    } else if s[0].0@ == k {
        s[0].1 as nat
    } else {
        hint_in(s.drop_first(), k)
    }
}

proof fn lemma_hint_at(s: Seq<(String, usize)>, k: Seq<char>, i: int)
    requires
        0 <= i < s.len(),
        s[i].0@ == k,
        forall|j: int| 0 <= j < i ==> #[trigger] s[j].0@ != k,
    ensures
        hint_in(s, k) == s[i].1 as nat,
    decreases i,
{
    if i > 0 {
        assert forall|j: int| 0 <= j < i - 1 implies #[trigger] s.drop_first()[j].0@ != k by {
            assert(s.drop_first()[j] == s[j + 1]);
        }
        lemma_hint_at(s.drop_first(), k, i - 1);
    }
}

proof fn lemma_hint_absent(s: Seq<(String, usize)>, k: Seq<char>)
    requires
        forall|j: int| 0 <= j < s.len() ==> #[trigger] s[j].0@ != k,
    ensures
        hint_in(s, k) == 0,
    decreases s.len(),
{
    if s.len() > 0 {
        assert forall|j: int| 0 <= j < s.len() - 1 implies #[trigger] s.drop_first()[j].0@ != k by {
            assert(s.drop_first()[j] == s[j + 1]);
        }
        lemma_hint_absent(s.drop_first(), k);
    }
}

proof fn lemma_hint_push(s: Seq<(String, usize)>, e: (String, usize), k: Seq<char>)
    requires
        forall|j: int| 0 <= j < s.len() ==> #[trigger] s[j].0@ != e.0@,
    ensures
        hint_in(s.push(e), k) == if k == e.0@ {
            e.1 as nat
        } else {
            hint_in(s, k)
        },
    decreases s.len(),
{
    if s.len() == 0 {
        assert(s.push(e).drop_first() =~= Seq::<(String, usize)>::empty());
        assert(s.push(e)[0] == e);
        assert(hint_in(s.push(e).drop_first(), k) == 0);
    } else {
        assert(s.push(e).drop_first() =~= s.drop_first().push(e));
        assert(s.push(e)[0] == s[0]);
        assert forall|j: int| 0 <= j < s.drop_first().len() implies #[trigger] s.drop_first()[j].0@ != e.0@ by {
            assert(s.drop_first()[j] == s[j + 1]);
        }
        lemma_hint_push(s.drop_first(), e, k);
    }
}

proof fn lemma_hint_set(s: Seq<(String, usize)>, i: int, e: (String, usize), k: Seq<char>)
    requires
        0 <= i < s.len(),
        s[i].0@ == e.0@,
        forall|j: int| 0 <= j < i ==> #[trigger] s[j].0@ != e.0@,
    ensures
        hint_in(s.update(i, e), k) == if k == e.0@ {
            e.1 as nat
        } else {
            hint_in(s, k)
        },
    decreases i,
{
    if i == 0 {
        assert(s.update(i, e).drop_first() =~= s.drop_first());
    } else {
        assert(s.update(i, e).drop_first() =~= s.drop_first().update(i - 1, e));
        assert forall|j: int| 0 <= j < i - 1 implies #[trigger] s.drop_first()[j].0@ != e.0@ by {
            assert(s.drop_first()[j] == s[j + 1]);
        }
        lemma_hint_set(s.drop_first(), i - 1, e, k);
    }
}

spec fn taken_names(s: Seq<(String, usize)>) -> Set<Seq<char>> {
    Set::new(|n: Seq<char>| exists|i: int| 0 <= i < s.len() && #[trigger] s[i].0@ == n)
}

proof fn lemma_taken_push(s: Seq<(String, usize)>, e: (String, usize))
    ensures
        taken_names(s.push(e)) == taken_names(s).insert(e.0@),
{
    let t = s.push(e);
    assert forall|x: Seq<char>| #[trigger] taken_names(t).contains(x) == taken_names(s).insert(e.0@).contains(x) by {
        if taken_names(s).contains(x) {
            let i = choose|i: int| 0 <= i < s.len() && #[trigger] s[i].0@ == x;
            assert(t[i].0@ == x);
        }
        if x == e.0@ {
            assert(t[s.len() as int].0@ == x);
        }
        if taken_names(t).contains(x) {
            let i = choose|i: int| 0 <= i < t.len() && #[trigger] t[i].0@ == x;
            if i < s.len() {
                assert(s[i].0@ == x);
            }
        }
    }
    assert(taken_names(t) =~= taken_names(s).insert(e.0@));
}

proof fn lemma_taken_set(s: Seq<(String, usize)>, k: int, e: (String, usize))
    requires
        0 <= k < s.len(),
        s[k].0@ == e.0@,
    ensures
        taken_names(s.update(k, e)) == taken_names(s),
{
    let t = s.update(k, e);
    assert forall|x: Seq<char>| #[trigger] taken_names(t).contains(x) == taken_names(s).contains(x) by {
        if taken_names(s).contains(x) {
            let i = choose|i: int| 0 <= i < s.len() && #[trigger] s[i].0@ == x;
            assert(t[i].0@ == x);
        }
        if taken_names(t).contains(x) {
            let i = choose|i: int| 0 <= i < t.len() && #[trigger] t[i].0@ == x;
            assert(s[i].0@ == x);
        }
    }
    assert(taken_names(t) =~= taken_names(s));
}

/// How many taken names are `base_<k>` for some `k` above `n`.
spec fn numbered_above(taken: Seq<(String, usize)>, base: Seq<char>, n: nat) -> nat
    decreases taken.len(),
{
    if taken.len() == 0 {
        0
    } else {
        numbered_above(taken.drop_last(), base, n) + if exists|k: nat| k > n && #[trigger] numbered(
            base,
            k,
        ) == taken.last().0@ {
            1nat
        } else {
            0nat
        }
    }
}

proof fn lemma_numbered_injective(base: Seq<char>, a: nat, b: nat)
    requires
        numbered(base, a) == numbered(base, b),
    ensures
        a == b,
{
    let x = numbered(base, a);
    assert(x.skip(base.len() as int + 1) =~= decimal(a));
    assert(numbered(base, b).skip(base.len() as int + 1) =~= decimal(b));
    lemma_decimal_injective(a, b);
}

proof fn lemma_numbered_above_len(taken: Seq<(String, usize)>, base: Seq<char>, n: nat)
    ensures
        numbered_above(taken, base, n) <= taken.len(),
    decreases taken.len(),
{
    if taken.len() > 0 {
        lemma_numbered_above_len(taken.drop_last(), base, n);
    }
}

proof fn lemma_numbered_above_steps(taken: Seq<(String, usize)>, base: Seq<char>, n: nat)
    ensures
        numbered_above(taken, base, n + 1) <= numbered_above(taken, base, n),
        (exists|i: int| 0 <= i < taken.len() && #[trigger] taken[i].0@ == numbered(base, n + 1))
            ==> numbered_above(taken, base, n + 1) < numbered_above(taken, base, n),
    decreases taken.len(),
{
    if taken.len() > 0 {
        let rest = taken.drop_last();
        lemma_numbered_above_steps(rest, base, n);
        let key = taken.last().0@;
        if exists|k: nat| k > n + 1 && #[trigger] numbered(base, k) == key {
            let k = choose|k: nat| k > n + 1 && #[trigger] numbered(base, k) == key;
            assert(numbered(base, k) == key);
        }
        if key == numbered(base, n + 1) {
            assert(numbered(base, (n + 1) as nat) == key);
            if exists|k: nat| k > n + 1 && #[trigger] numbered(base, k) == key {
                let k = choose|k: nat| k > n + 1 && #[trigger] numbered(base, k) == key;
                lemma_numbered_injective(base, k, (n + 1) as nat);
            }
        }
        if exists|i: int| 0 <= i < taken.len() && #[trigger] taken[i].0@ == numbered(base, n + 1) {
            let i = choose|i: int| 0 <= i < taken.len() && #[trigger] taken[i].0@ == numbered(base, n + 1);
            if i < taken.len() - 1 {
                assert(rest[i].0@ == numbered(base, n + 1));
            }
        }
    }
}

impl Allocator {
    /// The suffix last handed out for `base`: allocating `base` again
    /// tries the suffixes above it. 0 for a name never used as a base.
    pub closed spec fn last_suffix(&self, base: Seq<char>) -> nat {
        hint_in(self.taken@, base)
    }
}

impl Default for Allocator {
    fn default() -> (a: Allocator)
        ensures
            a@ == Set::<Seq<char>>::empty(),
            forall|b: Seq<char>| a.last_suffix(b) == 0,
    {
        Allocator::new()
    }
}

impl Allocator {
    pub fn new() -> (a: Allocator)
        ensures
            a@ == Set::<Seq<char>>::empty(),
            forall|b: Seq<char>| a.last_suffix(b) == 0,
    {
        let a = Allocator { taken: Vec::new() };
        assert(a@ =~= Set::<Seq<char>>::empty());
        a
    }

    fn find(&self, name: &str) -> (r: Option<usize>)
        ensures
            match r {
                Some(i) => i < self.taken@.len() && self.taken@[i as int].0@ == name@ && forall|j: int|
                    0 <= j < i ==> #[trigger] self.taken@[j].0@ != name@,
                None => !self@.contains(name@) && forall|j: int|
                    0 <= j < self.taken@.len() ==> #[trigger] self.taken@[j].0@ != name@,
            },
    {
        let mut i: usize = 0;
        while i < self.taken.len()
            invariant
                i <= self.taken@.len(),
                forall|j: int| 0 <= j < i ==> #[trigger] self.taken@[j].0@ != name@,
            decreases self.taken@.len() - i,
        {
            if str_eq(self.taken[i].0.as_str(), name) {
                return Some(i);
            }
            i = i + 1;
        }
        None
    }

    /// Marks `name` as taken, so no later allocation hands it out.
    pub fn reserve(&mut self, name: &str)
        ensures
            final(self)@ == old(self)@.insert(name@),
            forall|b: Seq<char>| final(self).last_suffix(b) == old(self).last_suffix(b),
    {
        match self.find(name) {
            None => {
                let e = (owned(name), 0usize);
                proof {
                    lemma_taken_push(self.taken@, e);
                    assert forall|b: Seq<char>| hint_in(self.taken@.push(e), b) == hint_in(self.taken@, b) by {
                        lemma_hint_push(self.taken@, e, b);
                        if b == name@ {
                            lemma_hint_absent(self.taken@, b);
                        }
                    }
                }
                self.taken.push(e);
            },
            Some(i) => {
                assert(old(self)@.contains(name@)) by {
                    assert(self.taken@[i as int].0@ == name@);
                }
                assert(self@ =~= old(self)@.insert(name@));
            },
        }
    }

    /// Hands out `base` if it is free, else the first free `base_<n>` after
    /// the last one tried for `base`. The name returned was not taken, and
    /// is taken afterwards: no two allocations return the same name.
    pub fn allocate(&mut self, base: &str) -> (name: String)
        ensures
            !old(self)@.contains(name@),
            final(self)@ == old(self)@.insert(name@),
            !old(self)@.contains(base@) ==> name@ == base@,
            old(self)@.contains(base@) ==> exists|n: nat|
                n > old(self).last_suffix(base@) && name@ == #[trigger] numbered(base@, n) && (forall|m: nat|
                    old(self).last_suffix(base@) < m < n ==> old(self)@.contains(#[trigger] numbered(base@, m))) && (n
                    <= usize::MAX ==> final(self).last_suffix(base@) == n),
            final(self).last_suffix(name@) == 0 || name@ == base@,
            forall|b: Seq<char>| b != base@ && b != name@ ==> final(self).last_suffix(b) == old(self).last_suffix(b),
            !old(self)@.contains(base@) ==> final(self).last_suffix(base@) == 0,
    {
        let found = self.find(base);
        proof {
            if let Some(bi) = found {
                assert(self.taken@[bi as int].0@ == base@);
                assert(old(self)@.contains(base@));
            }
        }
        match found {
            None => {
                let e = (owned(base), 0usize);
                proof {
                    lemma_taken_push(self.taken@, e);
                    assert forall|b: Seq<char>| hint_in(self.taken@.push(e), b) == if b == base@ { 0 } else { hint_in(self.taken@, b) } by {
                        lemma_hint_push(self.taken@, e, b);
                    }
                }
                self.taken.push(e);
                owned(base)
            },
            Some(bi) => {
                let len = self.taken.len();
                let n0: u128 = self.taken[bi].1 as u128;
                let mut n: u128 = n0;
                proof {
                    lemma_numbered_above_len(self.taken@, base@, n0 as nat);
                    lemma_hint_at(self.taken@, base@, bi as int);
                }
                loop
                    invariant
                        n0 == old(self).last_suffix(base@),
                        forall|j: int| 0 <= j < bi ==> #[trigger] self.taken@[j].0@ != base@,
                        forall|m: nat| n0 < m <= n ==> old(self)@.contains(#[trigger] numbered(base@, m)),
                        self.taken@ == old(self).taken@,
                        len == self.taken@.len(),
                        bi < self.taken@.len(),
                        self.taken@[bi as int].0@ == base@,
                        n0 <= usize::MAX,
                        n0 <= n,
                        n + numbered_above(self.taken@, base@, n as nat) <= n0 + len,
                    decreases numbered_above(self.taken@, base@, n as nat),
                {
                    proof { lemma_numbered_above_steps(self.taken@, base@, n as nat); }
                    n = n + 1;
                    let digits = decimal_string_wide(n);
                    let candidate = cat3(base, "_", digits.as_str());
                    proof { reveal_strlit("_"); }
                    assert(candidate@ =~= numbered(base@, n as nat));
                    match self.find(candidate.as_str()) {
                        None => {
                            let hint: usize = #[verifier::truncate] (n as usize);
                            let e1 = (owned(base), hint);
                            let ghost t0 = self.taken@;
                            proof {
                                lemma_taken_set(self.taken@, bi as int, e1);
                                assert forall|b: Seq<char>| hint_in(t0.update(bi as int, e1), b) == if b == base@ { hint as nat } else { hint_in(t0, b) } by {
                                    lemma_hint_set(t0, bi as int, e1, b);
                                }
                            }
                            self.taken.set(bi, e1);
                            let e2 = (owned(candidate.as_str()), 0usize);
                            let ghost t1 = self.taken@;
                            proof {
                                lemma_taken_push(self.taken@, e2);
                                assert forall|j: int| 0 <= j < t1.len() implies #[trigger] t1[j].0@ != e2.0@ by {
                                    if j != bi {
                                        assert(t1[j] == t0[j]);
                                    } else {
                                        lemma_numbered_above_len(t0, base@, 0);
                                        assert(base@.len() < numbered(base@, n as nat).len());
                                    }
                                }
                                assert forall|b: Seq<char>| hint_in(t1.push(e2), b) == if b == e2.0@ { 0 } else { hint_in(t1, b) } by {
                                    lemma_hint_push(t1, e2, b);
                                }
                                if n <= usize::MAX {
                                    assert(hint as nat == n as nat);
                                }
                            }
                            self.taken.push(e2);
                            return candidate;
                        },
                        Some(_) => {},
                    }
                }
            },
        }
    }
}

} // verus!
