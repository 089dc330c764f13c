//! Emitting valid pest surface syntax.
//!
//! Shared by the expression emitter and the continuation-class derivation:
//! both write literals and character ranges, and they must agree character
//! for character or the generated guards will not match the generated tokens.

use vstd::prelude::*;
use crate::text::{chars_of, push_char, string_of};

verus! {

pub open spec fn is_ascii_alpha(c: char) -> bool {
    ('a' <= c && c <= 'z') || ('A' <= c && c <= 'Z')
}

/// How one character is written inside a pest `"..."` literal.
pub open spec fn escape_char(c: char) -> Seq<char> {
    if c == '"' {
        seq!['\\', '"']
    } else if c == '\\' {
        seq!['\\', '\\']
    } else if c == '\n' {
        seq!['\\', 'n']
    } else if c == '\r' {
        seq!['\\', 'r']
    } else if c == '\t' {
        seq!['\\', 't']
    } else if c == '\0' {
        seq!['\\', '0']
    } else {
        seq![c]
    }
}

pub open spec fn escape(s: Seq<char>) -> Seq<char>
    decreases s.len(),
{
    if s.len() == 0 {
        Seq::empty()
    } else {
        escape(s.drop_last()) + escape_char(s.last())
    }
}

/// The pest literal for `value`: `^"..."` when folding a literal that has a
/// letter, `"..."` otherwise.
pub open spec fn string_spec(value: Seq<char>, case_insensitive: bool) -> Seq<char> {
    let fold = case_insensitive && exists|i: int| 0 <= i < value.len() && is_ascii_alpha(#[trigger] value[i]);
    (if fold { seq!['^'] } else { Seq::empty() }) + seq!['"'] + escape(value) + seq!['"']
}

fn push_escaped(out: &mut String, c: char)
    ensures
        final(out)@ == old(out)@ + escape_char(c),
{
    if c == '"' {
        out.append("\\\"");
    } else if c == '\\' {
        out.append("\\\\");
    } else if c == '\n' {
        out.append("\\n");
    } else if c == '\r' {
        out.append("\\r");
    } else if c == '\t' {
        out.append("\\t");
    } else if c == '\0' {
        out.append("\\0");
    } else {
        push_char(out, c);
    }
    proof {
        reveal_strlit("\\\"");
        reveal_strlit("\\\\");
        reveal_strlit("\\n");
        reveal_strlit("\\r");
        reveal_strlit("\\t");
        reveal_strlit("\\0");
    }
}

/// A pest string literal, e.g. `"let"`, or `^"AND"` when folding. Folding is
/// emitted only for literals that contain a letter: `^"="` would imply a
/// case-sensitivity that punctuation does not have.
pub fn string(value: &str, case_insensitive: bool) -> (s: String)
    ensures
        s@ == string_spec(value@, case_insensitive),
{
    let v = chars_of(value);
    let mut has_alpha = false;
    let mut i: usize = 0;
    while i < v.len()
        invariant
            v@ == value@,
            i <= v@.len(),
            has_alpha == exists|j: int| 0 <= j < i && is_ascii_alpha(#[trigger] v@[j]),
        decreases v@.len() - i,
    {
        let c = v[i];
        if ('a' <= c && c <= 'z') || ('A' <= c && c <= 'Z') {
            has_alpha = true;
        }
        i = i + 1;
    }
    let mut out = String::new();
    if case_insensitive && has_alpha {
        push_char(&mut out, '^');
    }
    push_char(&mut out, '"');
    let ghost head = out@;
    let mut i: usize = 0;
    while i < v.len()
        invariant
            v@ == value@,
            i <= v@.len(),
            out@ == head + escape(v@.take(i as int)),
        decreases v@.len() - i,
    {
        push_escaped(&mut out, v[i]);
        assert(v@.take(i + 1).drop_last() == v@.take(i as int));
        i = i + 1;
    }
    assert(v@.take(v@.len() as int) == v@);
    push_char(&mut out, '"');
    assert(out@ =~= string_spec(value@, case_insensitive));
    out
}

/// How one character is written as a pest character literal.
pub open spec fn quote_char_spec(c: char) -> Seq<char> {
    if c == '\'' {
        seq!['\'', '\\', '\'', '\'']
    } else if c == '\\' {
        seq!['\'', '\\', '\\', '\'']
    } else if c == '\n' {
        seq!['\'', '\\', 'n', '\'']
    } else if c == '\r' {
        seq!['\'', '\\', 'r', '\'']
    } else if c == '\t' {
        seq!['\'', '\\', 't', '\'']
    } else if c == '\0' {
        seq!['\'', '\\', '0', '\'']
    } else {
        seq!['\'', c, '\'']
    }
}

fn quote_char(out: &mut String, c: char)
    ensures
        final(out)@ == old(out)@ + quote_char_spec(c),
{
    push_char(out, '\'');
    if c == '\'' || c == '\\' || c == '\n' || c == '\r' || c == '\t' || c == '\0' {
        push_char(out, '\\');
        let e = if c == '\n' {
            'n'
        } else if c == '\r' {
            'r'
        } else if c == '\t' {
            't'
        } else if c == '\0' {
            '0'
        } else {
            c
        };
        push_char(out, e);
    } else {
        push_char(out, c);
    }
    push_char(out, '\'');
    assert(final(out)@ =~= old(out)@ + quote_char_spec(c));
}

/// A pest character range, e.g. `'a'..'z'`, when both sides are single
/// characters.
pub open spec fn char_range_spec(lo: Seq<char>, hi: Seq<char>) -> Option<Seq<char>> {
    if lo.len() == 1 && hi.len() == 1 {
        Some(quote_char_spec(lo[0]) + seq!['.', '.'] + quote_char_spec(hi[0]))
    } else {
        None
    }
}

/// A pest character range: pest ranges use single quotes, where `.nh`
/// spells them `"a".."z"`.
pub fn char_range(lo: &str, hi: &str) -> (r: Option<String>)
    ensures
        match r {
            Some(s) => char_range_spec(lo@, hi@) == Some(s@),
            None => char_range_spec(lo@, hi@) is None,
        },
{
    let l = chars_of(lo);
    let h = chars_of(hi);
    if l.len() != 1 || h.len() != 1 {
        return None;
    }
    let mut out = String::new();
    quote_char(&mut out, l[0]);
    out.append("..");
    quote_char(&mut out, h[0]);
    proof { reveal_strlit(".."); }
    assert(out@ =~= quote_char_spec(lo@[0]) + seq!['.', '.'] + quote_char_spec(hi@[0]));
    Some(out)
}

/// Opening minus closing parentheses in `s`.
pub open spec fn paren_depth(s: Seq<char>) -> int
    decreases s.len(),
{
    if s.len() == 0 {
        0
    } else {
        paren_depth(s.drop_last()) + if s.last() == '(' {
            1int
        } else if s.last() == ')' {
            -1int
        } else {
            0int
        }
    }
}

/// Parentheses balance, and no `)` before the last character closes back to
/// depth zero: `(a) ~ (b)` is not wrapped as a whole.
pub open spec fn balanced_spec(s: Seq<char>) -> bool {
    &&& paren_depth(s) == 0
    &&& forall|k: int| 0 <= k < s.len() - 1 && s[k] == ')' ==> paren_depth(#[trigger] s.take(k + 1)) != 0
}

/// Already a single term: empty, wrapped in parentheses as a whole, or free
/// of spaces.
pub open spec fn is_atomic_fragment(s: Seq<char>) -> bool {
    ||| s.len() == 0
    ||| (s[0] == '(' && s.last() == ')' && balanced_spec(s))
    ||| !s.contains(' ')
}

pub open spec fn group_spec(s: Seq<char>) -> Seq<char> {
    if is_atomic_fragment(s) {
        s
    } else {
        seq!['('] + s + seq![')']
    }
}

fn balanced(v: &Vec<char>) -> (b: bool)
    ensures
        b == balanced_spec(v@),
{
    let mut depth: i128 = 0;
    let mut i: usize = 0;
    while i < v.len()
        invariant
            i <= v@.len(),
            depth == paren_depth(v@.take(i as int)),
            -(i as int) <= depth <= i,
            forall|k: int| 0 <= k < i && k < v@.len() - 1 && v@[k] == ')' ==> paren_depth(#[trigger] v@.take(k + 1)) != 0,
        decreases v@.len() - i,
    {
        assert(v@.take(i + 1).drop_last() == v@.take(i as int));
        let c = v[i];
        if c == '(' {
            depth = depth + 1;
        } else if c == ')' {
            depth = depth - 1;
            if depth == 0 && i + 1 != v.len() {
                return false;
            }
        }
        i = i + 1;
    }
    assert(v@.take(v@.len() as int) == v@);
    depth == 0
}

/// Wraps in parentheses unless the fragment is already a single term.
pub fn group(fragment: &str) -> (s: String)
    ensures
        s@ == group_spec(fragment@),
{
    let v = chars_of(fragment);
    let mut atomic = v.len() == 0;
    if !atomic && v[0] == '(' && v[v.len() - 1] == ')' && balanced(&v) {
        atomic = true;
    }
    if !atomic {
        let mut space = false;
        let mut i: usize = 0;
        while i < v.len()
            invariant
                i <= v@.len(),
                space == exists|j: int| 0 <= j < i && #[trigger] v@[j] == ' ',
            decreases v@.len() - i,
        {
            if v[i] == ' ' {
                space = true;
            }
            i = i + 1;
        }
        if !space {
            atomic = true;
        }
        proof {
            if space {
                let j = choose|j: int| 0 <= j < i && #[trigger] v@[j] == ' ';
                assert(fragment@.contains(' '));
            }
        }
    }
    if atomic {
        string_of(v.as_slice())
    } else {
        let mut out = String::new();
        push_char(&mut out, '(');
        out.append(fragment);
        push_char(&mut out, ')');
        out
    }
}

proof fn lemma_paren_depth_concat(a: Seq<char>, b: Seq<char>)
    ensures
        paren_depth(a + b) == paren_depth(a) + paren_depth(b),
    decreases b.len(),
{
    if b.len() > 0 {
        lemma_paren_depth_concat(a, b.drop_last());
        assert((a + b).drop_last() =~= a + b.drop_last());
        assert((a + b).last() == b.last());
    } else {
        assert(a + b =~= a);
    }
}

/// Grouping is idempotent on a fragment whose parentheses nest properly:
/// grouping twice gives what grouping once gave, which is the fragment
/// itself or the fragment in parentheses.
pub proof fn grouping_twice_changes_nothing(f: Seq<char>)
    requires
        forall|k: int| 0 <= k <= f.len() ==> paren_depth(#[trigger] f.take(k)) >= 0,
        paren_depth(f) == 0,
    ensures
        group_spec(group_spec(f)) == group_spec(f),
        group_spec(f) == f || group_spec(f) == seq!['('] + f + seq![')'],
{
    if !is_atomic_fragment(f) {
        let w = seq!['('] + f + seq![')'];
        assert(w.len() > 0);
        assert(w[0] == '(');
        assert(w.last() == ')');
        lemma_paren_depth_concat(seq!['('] + f, seq![')']);
        lemma_paren_depth_concat(seq!['('], f);
        assert(paren_depth(seq!['(']) == 1) by {
            assert(seq!['('].drop_last() =~= Seq::<char>::empty());
            assert(paren_depth(Seq::<char>::empty()) == 0);
            assert(seq!['('].last() == '(');
        }
        assert(paren_depth(seq![')']) == -1) by {
            assert(seq![')'].drop_last() =~= Seq::<char>::empty());
            assert(paren_depth(Seq::<char>::empty()) == 0);
            assert(seq![')'].last() == ')');
        }
        assert(paren_depth(w) == 0);
        assert forall|k: int| 0 <= k < w.len() - 1 && w[k] == ')' implies paren_depth(#[trigger] w.take(k + 1)) != 0 by {
            assert(k >= 1);
            assert(w.take(k + 1) =~= seq!['('] + f.take(k));
            lemma_paren_depth_concat(seq!['('], f.take(k));
            assert(paren_depth(f.take(k)) >= 0);
        }
        assert(balanced_spec(w));
        assert(is_atomic_fragment(w));
    }
}

} // verus!
