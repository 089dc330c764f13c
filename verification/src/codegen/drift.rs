//! Checking a hand-written handler against the grammar it came from.
//!
//! Parameters are matched positionally, so two grammar changes get past the
//! compiler: renaming a binding (the handler reads the right value under the
//! wrong name) and reordering two bindings of the same type (the handler
//! receives them swapped). This reads the handler's `run` signature back and
//! compares its parameter names with the grammar's.

use vstd::prelude::*;
use crate::codegen::{ident, ident_spec};
use crate::codegen::params::{first_bindings, params};
use crate::lower::{Lowered, LoweredAlternative};
use crate::text::{chars_of, owned, str_eq, string_of};

verus! {

/// Whether `c` has the Unicode `White_Space` property, the set that std's
/// `char::is_whitespace` and `str::trim` go by.
pub closed spec fn white_space(c: char) -> bool {
    let n = c as u32;
    ||| 0x09 <= n <= 0x0D
    ||| n == 0x20 || n == 0x85 || n == 0xA0 || n == 0x1680
    ||| 0x2000 <= n <= 0x200A
    ||| n == 0x2028 || n == 0x2029 || n == 0x202F || n == 0x205F || n == 0x3000
}

/// Whether `c` is white space, as `char::is_whitespace` decides it.
pub fn is_space(c: char) -> (b: bool)
    ensures
        b == white_space(c),
{
    let n = c as u32;
    (0x09 <= n && n <= 0x0D) || n == 0x20 || n == 0x85 || n == 0xA0 || n == 0x1680
        || (0x2000 <= n && n <= 0x200A) || n == 0x2028 || n == 0x2029 || n == 0x202F
        || n == 0x205F || n == 0x3000
}

/// What a handler file disagrees with its grammar about.
#[derive(Debug, PartialEq, Eq)]
pub enum Drift {
    /// The same names, in a different order. The handler is now wrong.
    Reordered { expected: Vec<String>, found: Vec<String> },
    /// Different names. Usually a rename; the handler still works but no
    /// longer says what it is reading.
    Renamed { expected: Vec<String>, found: Vec<String> },
}

pub open spec fn views(v: Seq<String>) -> Seq<Seq<char>> {
    v.map_values(|s: String| s@)
}

/// `parts` separated by `sep`.
pub open spec fn joined(parts: Seq<Seq<char>>, sep: Seq<char>) -> Seq<char>
    decreases parts.len(),
{
    if parts.len() == 0 {
        Seq::empty()
    } else if parts.len() == 1 {
        parts[0]
    } else {
        joined(parts.drop_last(), sep) + sep + parts.last()
    }
}

pub(crate) fn join(parts: &Vec<String>, sep: &str) -> (s: String)
    ensures
        s@ == joined(views(parts@), sep@),
{
    let mut s = String::new();
    let mut i: usize = 0;
    while i < parts.len()
        invariant
            i <= parts@.len(),
            s@ == joined(views(parts@.take(i as int)), sep@),
        decreases parts@.len() - i,
    {
        if i > 0 {
            s.append(sep);
        }
        s.append(parts[i].as_str());
        proof {
            let t = views(parts@.take(i + 1));
            assert(t.drop_last() =~= views(parts@.take(i as int)));
            if i == 0 {
                assert(views(parts@.take(0)) =~= Seq::<Seq<char>>::empty());
            }
        }
        i = i + 1;
    }
    proof {
        assert(parts@.take(parts@.len() as int) =~= parts@);
    }
    s
}

impl Drift {
    /// Whether this is a defect rather than a cosmetic mismatch.
    pub fn is_error(&self) -> (b: bool)
        ensures
            b == (self is Reordered),
    {
        match self {
            Drift::Reordered { .. } => true,
            Drift::Renamed { .. } => false,
        }
    }

    pub open spec fn message_spec(&self, path: Seq<char>) -> Seq<char> {
        match self {
            Drift::Reordered { expected, found } => path
                + " takes its parameters in a different order than the grammar binds them\n  grammar:  "@
                + joined(views(expected@), ", "@) + "\n  handler:  "@ + joined(views(found@), ", "@)
                + "\nnote: parameters are positional, so this handler now receives them swapped\nhelp: reorder the parameters to match the grammar"@,
            Drift::Renamed { expected, found } => path
                + " names its parameters differently than the grammar binds them\n  grammar:  "@
                + joined(views(expected@), ", "@) + "\n  handler:  "@ + joined(views(found@), ", "@)
                + "\nhelp: rename the parameters to match, so the handler says what it reads"@,
        }
    }

    /// The report for the handler file at `path`.
    pub fn message(&self, path: &str) -> (s: String)
        ensures
            s@ == self.message_spec(path@),
    {
        match self {
            Drift::Reordered { expected, found } => {
                let mut s = owned(path);
                s.append(" takes its parameters in a different order than the grammar binds them\n  grammar:  ");
                s.append(join(expected, ", ").as_str());
                s.append("\n  handler:  ");
                s.append(join(found, ", ").as_str());
                s.append("\nnote: parameters are positional, so this handler now receives them swapped\nhelp: reorder the parameters to match the grammar");
                s
            },
            Drift::Renamed { expected, found } => {
                let mut s = owned(path);
                s.append(" names its parameters differently than the grammar binds them\n  grammar:  ");
                s.append(join(expected, ", ").as_str());
                s.append("\n  handler:  ");
                s.append(join(found, ", ").as_str());
                s.append("\nhelp: rename the parameters to match, so the handler says what it reads");
                s
            },
        }
    }
}

// ---------------------------------------------------------------------------
// Reading a signature back
// ---------------------------------------------------------------------------

/// Whether `pat` occurs in `s` at `i`.
pub open spec fn occurs_at(s: Seq<char>, pat: Seq<char>, i: int) -> bool {
    0 <= i && i + pat.len() <= s.len() && s.subrange(i, i + pat.len()) == pat
}

/// The first position at or after `from` where `pat` occurs, or -1.
pub open spec fn find_from(s: Seq<char>, pat: Seq<char>, from: int) -> int
    decreases s.len() + 1 - from,
{
    if from < 0 || from + pat.len() > s.len() {
        -1
    } else if occurs_at(s, pat, from) {
        from
    } else {
        find_from(s, pat, from + 1)
    }
}

/// Where the parenthesis opened at `i` with `depth` already open closes, or
/// -1 when it never does.
pub open spec fn close_from(s: Seq<char>, i: int, depth: int) -> int
    decreases s.len() - i,
{
    if i < 0 || i >= s.len() {
        -1
    } else if s[i] == '(' {
        close_from(s, i + 1, depth + 1)
    } else if s[i] == ')' {
        if depth - 1 == 0 {
            i
        } else {
            close_from(s, i + 1, depth - 1)
        }
    } else {
        close_from(s, i + 1, depth)
    }
}

pub open spec fn trim_start(s: Seq<char>) -> Seq<char>
    decreases s.len(),
{
    if s.len() > 0 && white_space(s[0]) {
        trim_start(s.skip(1))
    } else {
        s
    }
}

pub open spec fn trim_end(s: Seq<char>) -> Seq<char>
    decreases s.len(),
{
    if s.len() > 0 && white_space(s.last()) {
        trim_end(s.drop_last())
    } else {
        s
    }
}

pub open spec fn trim(s: Seq<char>) -> Seq<char> {
    trim_end(trim_start(s))
}

pub open spec fn is_open(c: char) -> bool {
    c == '<' || c == '(' || c == '['
}

pub open spec fn is_close(c: char) -> bool {
    c == '>' || c == ')' || c == ']'
}

/// The pieces of `s` from `start`, split at commas outside brackets; the last
/// piece only when it holds more than white space.
pub open spec fn split_from(s: Seq<char>, i: int, start: int, depth: int) -> Seq<Seq<char>>
    decreases s.len() - i,
{
    if i < 0 || i >= s.len() {
        if trim(s.subrange(start, s.len() as int)).len() > 0 {
            seq![s.subrange(start, s.len() as int)]
        } else {
            Seq::empty()
        }
    } else if is_open(s[i]) {
        split_from(s, i + 1, start, depth + 1)
    } else if is_close(s[i]) {
        split_from(s, i + 1, start, depth - 1)
    } else if s[i] == ',' && depth == 0 {
        seq![s.subrange(start, i)] + split_from(s, i + 1, i + 1, depth)
    } else {
        split_from(s, i + 1, start, depth)
    }
}

/// What precedes the first `:` of `s`, or all of it.
pub open spec fn before_colon(s: Seq<char>) -> Seq<char>
    decreases s.len(),
{
    if s.len() == 0 {
        s
    } else if s[0] == ':' {
        Seq::empty()
    } else {
        seq![s[0]] + before_colon(s.skip(1))
    }
}

/// `s` without any number of leading `mut `.
pub open spec fn strip_muts(s: Seq<char>) -> Seq<char>
    decreases s.len(),
{
    if s.len() >= 4 && s.take(4) == "mut "@ {
        strip_muts(s.skip(4))
    } else {
        s
    }
}

/// `s` without any number of leading `_`.
pub open spec fn strip_underscores(s: Seq<char>) -> Seq<char>
    decreases s.len(),
{
    if s.len() > 0 && s[0] == '_' {
        strip_underscores(s.skip(1))
    } else {
        s
    }
}

/// The name an argument declares.
pub open spec fn arg_name(arg: Seq<char>) -> Seq<char> {
    trim(strip_muts(trim(before_colon(arg))))
}

/// Whether an argument names no parameter a binding could have made.
pub open spec fn not_a_binding(name: Seq<char>) -> bool {
    name.len() == 0 || name == "self"@ || name == "&self"@
}

/// The names the arguments declare, skipping receivers and blanks.
pub open spec fn arg_names(args: Seq<Seq<char>>) -> Seq<Seq<char>>
    decreases args.len(),
{
    if args.len() == 0 {
        Seq::empty()
    } else {
        let rest = arg_names(args.drop_last());
        let n = arg_name(args.last());
        if not_a_binding(n) {
            rest
        } else {
            rest.push(n)
        }
    }
}

/// The parameter names of the first `pub fn run` in `source`, without the
/// first (the host) and the last (`cx`), each without leading `_`; `None`
/// when there is no such signature or it has fewer than two parameters.
pub open spec fn signature_params_spec(source: Seq<char>) -> Option<Seq<Seq<char>>> {
    let at = find_from(source, "pub fn run"@, 0);
    let open = find_from(source, seq!['('], at);
    let close = close_from(source, open, 0);
    let names = arg_names(split_from(source.subrange(open + 1, close), 0, 0, 0));
    if at < 0 || open < 0 || close < 0 || names.len() < 2 {
        None
    } else {
        Some(names.subrange(1, names.len() - 1).map_values(|n: Seq<char>| strip_underscores(n)))
    }
}

pub(crate) fn find_pat(s: &Vec<char>, pat: &Vec<char>, from: usize) -> (r: Option<usize>)
    requires
        from <= s@.len(),
    ensures
        r matches Some(i) ==> i as int == find_from(s@, pat@, from as int),
        r is None ==> find_from(s@, pat@, from as int) == -1,
{
    let n = s.len();
    let mut i = from;
    while i <= s.len() && pat.len() <= s.len() - i
        invariant
            n == s@.len(),
            from <= i,
            find_from(s@, pat@, from as int) == find_from(s@, pat@, i as int),
        decreases s@.len() + 1 - i,
    {
        let mut k: usize = 0;
        let mut same = true;
        while k < pat.len()
            invariant
                n == s@.len(),
                i + pat@.len() <= s@.len(),
                k <= pat@.len(),
                same == forall|j: int| 0 <= j < k ==> s@[i + j] == pat@[j],
            decreases pat@.len() - k,
        {
            assert(i + k < s@.len());
            if s[i + k] != pat[k] {
                same = false;
            }
            k = k + 1;
        }
        proof {
            if same {
                assert(s@.subrange(i as int, i + pat@.len()) =~= pat@);
            } else {
                let j = choose|j: int| 0 <= j < pat@.len() && s@[i + j] != pat@[j];
                assert(s@.subrange(i as int, i + pat@.len())[j] != pat@[j]);
            }
        }
        if same {
            return Some(i);
        }
        i = i + 1;
    }
    None
}

fn close_paren(s: &Vec<char>, open: usize) -> (r: Option<usize>)
    requires
        open < s@.len(),
        s@[open as int] == '(',
    ensures
        r matches Some(i) ==> i as int == close_from(s@, open as int, 0) && i < s@.len(),
        r is None ==> close_from(s@, open as int, 0) == -1,
{
    let mut depth: u128 = 0;
    let mut i = open;
    if i >= s.len() {
        return None;
    }
    while i < s.len()
        invariant
            open <= i,
            open < s@.len(),
            s@[open as int] == '(',
            depth <= i - open,
            close_from(s@, open as int, 0) == close_from(s@, i as int, depth as int),
            i > open ==> depth > 0,
        decreases s@.len() - i,
    {
        let c = s[i];
        if c == '(' {
            depth = depth + 1;
        } else if c == ')' {
            if depth <= 1 {
                if depth == 1 {
                    return Some(i);
                }
                // Unreachable: scanning starts at an opening bracket.
                return None;
            }
            depth = depth - 1;
        }
        i = i + 1;
    }
    None
}

fn trim_chars(v: &Vec<char>, lo: usize, hi: usize) -> (r: Vec<char>)
    requires
        lo <= hi <= v@.len(),
    ensures
        r@ == trim(v@.subrange(lo as int, hi as int)),
{
    let mut a = lo;
    while a < hi && is_space(v[a])
        invariant
            lo <= a <= hi,
            hi <= v@.len(),
            trim_start(v@.subrange(lo as int, hi as int)) == trim_start(v@.subrange(a as int, hi as int)),
        decreases hi - a,
    {
        proof {
            assert(v@.subrange(a as int, hi as int).skip(1) =~= v@.subrange(a + 1, hi as int));
        }
        a = a + 1;
    }
    proof {
        assert(trim_start(v@.subrange(a as int, hi as int)) == v@.subrange(a as int, hi as int));
    }
    let mut b = hi;
    while b > a && is_space(v[b - 1])
        invariant
            lo <= a <= b <= hi,
            hi <= v@.len(),
            trim_end(v@.subrange(a as int, hi as int)) == trim_end(v@.subrange(a as int, b as int)),
        decreases b - a,
    {
        proof {
            assert(v@.subrange(a as int, b as int).drop_last() =~= v@.subrange(a as int, b - 1));
        }
        b = b - 1;
    }
    let mut r: Vec<char> = Vec::new();
    let mut k = a;
    while k < b
        invariant
            a <= k <= b,
            b <= v@.len(),
            r@ == v@.subrange(a as int, k as int),
        decreases b - k,
    {
        r.push(v[k]);
        proof {
            assert(v@.subrange(a as int, k + 1) =~= v@.subrange(a as int, k as int).push(v@[k as int]));
        }
        k = k + 1;
    }
    r
}

fn before_colon_chars(v: &Vec<char>) -> (r: Vec<char>)
    ensures
        r@ == before_colon(v@),
{
    let mut r: Vec<char> = Vec::new();
    let mut i: usize = 0;
    proof {
        assert(v@.skip(0) =~= v@);
        assert(r@ + before_colon(v@) =~= before_colon(v@));
    }
    while i < v.len() && v[i] != ':'
        invariant
            i <= v@.len(),
            r@ + before_colon(v@.skip(i as int)) == before_colon(v@),
            forall|j: int| 0 <= j < i ==> v@[j] != ':',
        decreases v@.len() - i,
    {
        proof {
            assert(v@.skip(i as int).skip(1) =~= v@.skip(i + 1));
            assert(v@.skip(i as int)[0] == v@[i as int]);
            assert(r@.push(v@[i as int]) + before_colon(v@.skip(i + 1)) =~= r@ + (seq![v@[i as int]]
                + before_colon(v@.skip(i + 1))));
        }
        r.push(v[i]);
        i = i + 1;
    }
    proof {
        if i < v@.len() {
            assert(v@.skip(i as int)[0] == ':');
        } else {
            assert(v@.skip(i as int) =~= Seq::<char>::empty());
        }
        assert(r@ + Seq::<char>::empty() =~= r@);
    }
    r
}

fn strip_muts_chars(v: Vec<char>) -> (r: Vec<char>)
    ensures
        r@ == strip_muts(v@),
    decreases v@.len(),
{
    if v.len() >= 4 && v[0] == 'm' && v[1] == 'u' && v[2] == 't' && v[3] == ' ' {
        proof {
            reveal_strlit("mut ");
            assert(v@.take(4) =~= "mut "@);
        }
        let mut rest: Vec<char> = Vec::new();
        let mut i: usize = 4;
        while i < v.len()
            invariant
                4 <= i <= v@.len(),
                rest@ == v@.subrange(4, i as int),
            decreases v@.len() - i,
        {
            rest.push(v[i]);
            proof {
                assert(v@.subrange(4, i + 1) =~= v@.subrange(4, i as int).push(v@[i as int]));
            }
            i = i + 1;
        }
        proof {
            assert(rest@ =~= v@.skip(4));
        }
        strip_muts_chars(rest)
    } else {
        proof {
            reveal_strlit("mut ");
            if v@.len() >= 4 {
                if v@.take(4) == "mut "@ {
                    assert(v@.take(4)[0] == 'm');
                    assert(v@.take(4)[1] == 'u');
                    assert(v@.take(4)[2] == 't');
                    assert(v@.take(4)[3] == ' ');
                }
            }
        }
        v
    }
}

fn strip_underscores_str(s: &str) -> (r: String)
    ensures
        r@ == strip_underscores(s@),
{
    let v = chars_of(s);
    let mut i: usize = 0;
    proof {
        assert(v@.skip(0) =~= v@);
    }
    while i < v.len() && v[i] == '_'
        invariant
            i <= v@.len(),
            v@ == s@,
            strip_underscores(v@) == strip_underscores(v@.skip(i as int)),
        decreases v@.len() - i,
    {
        proof {
            assert(v@.skip(i as int).skip(1) =~= v@.skip(i + 1));
        }
        i = i + 1;
    }
    let mut r: Vec<char> = Vec::new();
    let mut k = i;
    while k < v.len()
        invariant
            i <= k <= v@.len(),
            r@ == v@.subrange(i as int, k as int),
        decreases v@.len() - k,
    {
        r.push(v[k]);
        proof {
            assert(v@.subrange(i as int, k + 1) =~= v@.subrange(i as int, k as int).push(v@[k as int]));
        }
        k = k + 1;
    }
    proof {
        assert(r@ =~= v@.skip(i as int));
    }
    string_of(r.as_slice())
}

/// The name declared by the argument `v[lo..hi]`.
fn arg_name_of(v: &Vec<char>, lo: usize, hi: usize) -> (r: Vec<char>)
    requires
        lo <= hi <= v@.len(),
    ensures
        r@ == arg_name(v@.subrange(lo as int, hi as int)),
{
    let mut piece: Vec<char> = Vec::new();
    let mut k = lo;
    while k < hi
        invariant
            lo <= k <= hi,
            hi <= v@.len(),
            piece@ == v@.subrange(lo as int, k as int),
        decreases hi - k,
    {
        piece.push(v[k]);
        proof {
            assert(v@.subrange(lo as int, k + 1) =~= v@.subrange(lo as int, k as int).push(v@[k as int]));
        }
        k = k + 1;
    }
    let head = before_colon_chars(&piece);
    let t1 = trim_chars(&head, 0, head.len());
    proof {
        assert(head@.subrange(0, head@.len() as int) =~= head@);
    }
    let m = strip_muts_chars(t1);
    let r = trim_chars(&m, 0, m.len());
    proof {
        assert(m@.subrange(0, m@.len() as int) =~= m@);
    }
    r
}

/// Splits `v[lo..hi]` at top-level commas and reads back each argument's
/// name, skipping receivers and blanks.
fn names_of_args(v: &Vec<char>, lo: usize, hi: usize) -> (r: Vec<Vec<char>>)
    requires
        lo <= hi <= v@.len(),
    ensures
        r@.map_values(|x: Vec<char>| x@) == arg_names(split_from(v@.subrange(lo as int, hi as int), 0, 0, 0)),
{
    let ghost s = v@.subrange(lo as int, hi as int);
    let mut out: Vec<Vec<char>> = Vec::new();
    let mut depth: i128 = 0;
    let mut start = lo;
    let mut i = lo;
    let ghost mut done: Seq<Seq<char>> = Seq::empty();
    while i < hi
        invariant
            lo <= start <= i <= hi,
            hi <= v@.len(),
            s == v@.subrange(lo as int, hi as int),
            -(i - lo) <= depth <= i - lo,
            done + split_from(s, i - lo, start - lo, depth as int) == split_from(s, 0, 0, 0),
            out@.map_values(|x: Vec<char>| x@) == arg_names(done),
        decreases hi - i,
    {
        let c = v[i];
        proof {
            assert(s[i - lo] == c);
        }
        if c == '<' || c == '(' || c == '[' {
            depth = depth + 1;
        } else if c == '>' || c == ')' || c == ']' {
            depth = depth - 1;
        } else if c == ',' && depth == 0 {
            let n = arg_name_of(v, start, i);
            proof {
                assert(s.subrange(start - lo, i - lo) =~= v@.subrange(start as int, i as int));
                let piece = s.subrange(start - lo, i - lo);
                assert(split_from(s, i - lo, start - lo, depth as int) == seq![piece] + split_from(
                    s,
                    i - lo + 1,
                    i - lo + 1,
                    depth as int,
                ));
                assert(done + split_from(s, i - lo, start - lo, depth as int) =~= done.push(piece)
                    + split_from(s, i - lo + 1, i - lo + 1, depth as int));
                assert(done.push(piece).drop_last() =~= done);
            }
            if !(n.len() == 0 || chars_are(&n, "self") || chars_are(&n, "&self")) {
                out.push(n);
            }
            proof {
                let piece = s.subrange(start - lo, i - lo);
                done = done.push(piece);
            }
            start = i + 1;
        }
        i = i + 1;
    }
    let t = trim_chars(v, start, hi);
    proof {
        assert(s.subrange(start - lo, s.len() as int) =~= v@.subrange(start as int, hi as int));
        if t@.len() > 0 {
            assert(split_from(s, i - lo, start - lo, depth as int) == seq![v@.subrange(start as int, hi as int)]);
            assert(done + seq![v@.subrange(start as int, hi as int)] =~= done.push(v@.subrange(start as int, hi as int)));
            assert(done.push(v@.subrange(start as int, hi as int)).drop_last() =~= done);
        } else {
            assert(done + split_from(s, i - lo, start - lo, depth as int) =~= done);
        }
    }
    if t.len() > 0 {
        let n = arg_name_of(v, start, hi);
        if !(n.len() == 0 || chars_are(&n, "self") || chars_are(&n, "&self")) {
            out.push(n);
        }
    }
    proof {
        assert(out@.map_values(|x: Vec<char>| x@) =~= arg_names(split_from(s, 0, 0, 0)));
    }
    out
}

fn chars_are(v: &Vec<char>, s: &str) -> (b: bool)
    ensures
        b == (v@ == s@),
{
    let w = chars_of(s);
    crate::text::chars_eq(v.as_slice(), w.as_slice())
}

/// The parameter names of `pub fn run`, minus the host and `cx`.
///
/// Deliberately forgiving: a signature it cannot read gives `None`, so a
/// handler somebody rewrote by hand is left alone rather than reported.
pub fn signature_params(source: &str) -> (r: Option<Vec<String>>)
    ensures
        r matches Some(names) ==> signature_params_spec(source@) == Some(views(names@)),
        r is None ==> signature_params_spec(source@) is None,
{
    let v = chars_of(source);
    let pat = chars_of("pub fn run");
    let at = match find_pat(&v, &pat, 0) {
        Some(a) => a,
        None => return None,
    };
    proof {
        lemma_find_occurs(v@, pat@, 0);
    }
    let paren = chars_of("(");
    proof {
        reveal_strlit("(");
        assert(paren@ =~= seq!['(']);
    }
    let open = match find_pat(&v, &paren, at) {
        Some(o) => o,
        None => return None,
    };
    proof {
        lemma_find_occurs(v@, paren@, at as int);
        assert(v@.subrange(open as int, open + 1)[0] == v@[open as int]);
    }
    let close = match close_paren(&v, open) {
        Some(c) => c,
        None => return None,
    };
    proof {
        assert(occurs_at(v@, seq!['('], open as int)) by {
            lemma_find_occurs(v@, seq!['('], at as int);
        }
        assert(v@.subrange(open as int, open + 1)[0] == '(');
        lemma_close_after(v@, open as int);
    }
    let names = names_of_args(&v, open + 1, close);
    if names.len() < 2 {
        return None;
    }
    let mut out: Vec<String> = Vec::new();
    let mut i: usize = 1;
    let ghost all = names@.map_values(|x: Vec<char>| x@);
    while i < names.len() - 1
        invariant
            names@.len() >= 2,
            1 <= i <= names@.len() - 1,
            all == names@.map_values(|x: Vec<char>| x@),
            views(out@) == all.subrange(1, i as int).map_values(|n: Seq<char>| strip_underscores(n)),
        decreases names@.len() - i,
    {
        let s = string_of(names[i].as_slice());
        let ghost prev = views(out@);
        let stripped = strip_underscores_str(s.as_str());
        out.push(stripped);
        proof {
            assert(all[i as int] == names@[i as int]@);
            assert(views(out@) =~= prev.push(strip_underscores(all[i as int])));
            assert(all.subrange(1, i + 1).map_values(|n: Seq<char>| strip_underscores(n)) =~= all.subrange(1, i as int).map_values(|n: Seq<char>| strip_underscores(n)).push(strip_underscores(all[i as int])));
        }
        i = i + 1;
    }
    Some(out)
}

proof fn lemma_find_occurs(s: Seq<char>, pat: Seq<char>, from: int)
    requires
        find_from(s, pat, from) >= 0,
    ensures
        occurs_at(s, pat, find_from(s, pat, from)),
        find_from(s, pat, from) >= from,
    decreases s.len() + 1 - from,
{
    if !(from < 0 || from + pat.len() > s.len()) && !occurs_at(s, pat, from) {
        lemma_find_occurs(s, pat, from + 1);
    }
}

proof fn lemma_close_after(s: Seq<char>, open: int)
    requires
        0 <= open < s.len(),
        s[open] == '(',
        close_from(s, open, 0) >= 0,
    ensures
        close_from(s, open, 0) > open,
{
    lemma_close_from_bound(s, open + 1, 1);
}

proof fn lemma_close_from_bound(s: Seq<char>, i: int, depth: int)
    requires
        close_from(s, i, depth) >= 0,
    ensures
        close_from(s, i, depth) >= i,
    decreases s.len() - i,
{
    if 0 <= i < s.len() {
        if s[i] == '(' {
            lemma_close_from_bound(s, i + 1, depth + 1);
        } else if s[i] == ')' {
            if depth - 1 != 0 {
                lemma_close_from_bound(s, i + 1, depth - 1);
            }
        } else {
            lemma_close_from_bound(s, i + 1, depth);
        }
    }
}

// ---------------------------------------------------------------------------
// Comparing
// ---------------------------------------------------------------------------

/// How many times `x` occurs in `s`.
pub open spec fn occurrences(s: Seq<Seq<char>>, x: Seq<char>) -> nat
    decreases s.len(),
{
    if s.len() == 0 {
        0
    } else {
        occurrences(s.drop_last(), x) + if s.last() == x {
            1nat
        } else {
            0nat
        }
    }
}

/// Whether `a` and `b` hold the same names, each as often.
pub open spec fn same_names(a: Seq<Seq<char>>, b: Seq<Seq<char>>) -> bool {
    forall|x: Seq<char>| occurrences(a, x) == occurrences(b, x)
}

/// The parameter names the grammar expects of an alternative's handler.
pub open spec fn expected_names(alt: LoweredAlternative) -> Seq<Seq<char>> {
    first_bindings(alt.bindings@).map_values(|b: crate::lower::Binding| ident_spec(b.name@))
}

/// What comparing the names the grammar expects with those a handler
/// declares finds: nothing when they agree or differ in number (an arity
/// error, which the compiler reports better); a reorder when they are the
/// same names in another order; a rename otherwise.
pub open spec fn compare_spec(expected: Seq<Seq<char>>, found: Seq<Seq<char>>) -> Option<bool> {
    if expected == found || expected.len() != found.len() {
        None
    } else {
        Some(same_names(expected, found))
    }
}

fn count_in(v: &Vec<String>, x: &str) -> (n: usize)
    ensures
        n == occurrences(views(v@), x@),
{
    let mut n: usize = 0;
    let mut i: usize = 0;
    while i < v.len()
        invariant
            i <= v@.len(),
            n == occurrences(views(v@.take(i as int)), x@),
            n <= i,
        decreases v@.len() - i,
    {
        proof {
            assert(views(v@.take(i + 1)).drop_last() =~= views(v@.take(i as int)));
        }
        if str_eq(v[i].as_str(), x) {
            n = n + 1;
        }
        i = i + 1;
    }
    proof {
        assert(v@.take(v@.len() as int) =~= v@);
    }
    n
}

proof fn lemma_occurrences_positive(s: Seq<Seq<char>>, k: int)
    requires
        0 <= k < s.len(),
    ensures
        occurrences(s, s[k]) > 0,
    decreases s.len(),
{
    if k < s.len() - 1 {
        lemma_occurrences_positive(s.drop_last(), k);
    }
}

/// Whether `a` and `b` hold the same names, each as often.
fn same_counts(a: &Vec<String>, b: &Vec<String>) -> (r: bool)
    ensures
        r == same_names(views(a@), views(b@)),
{
    let mut i: usize = 0;
    while i < a.len()
        invariant
            i <= a@.len(),
            forall|k: int| 0 <= k < i ==> occurrences(views(a@), #[trigger] views(a@)[k]) == occurrences(views(b@), views(a@)[k]),
        decreases a@.len() - i,
    {
        if count_in(a, a[i].as_str()) != count_in(b, a[i].as_str()) {
            proof {
                assert(views(a@)[i as int] == a@[i as int]@);
            }
            return false;
        }
        proof {
            assert(views(a@)[i as int] == a@[i as int]@);
        }
        i = i + 1;
    }
    let mut j: usize = 0;
    while j < b.len()
        invariant
            j <= b@.len(),
            forall|k: int| 0 <= k < a@.len() ==> occurrences(views(a@), #[trigger] views(a@)[k]) == occurrences(views(b@), views(a@)[k]),
            forall|k: int| 0 <= k < j ==> occurrences(views(a@), #[trigger] views(b@)[k]) == occurrences(views(b@), views(b@)[k]),
        decreases b@.len() - j,
    {
        if count_in(a, b[j].as_str()) != count_in(b, b[j].as_str()) {
            proof {
                assert(views(b@)[j as int] == b@[j as int]@);
            }
            return false;
        }
        proof {
            assert(views(b@)[j as int] == b@[j as int]@);
        }
        j = j + 1;
    }
    proof {
        assert forall|x: Seq<char>| occurrences(views(a@), x) == occurrences(views(b@), x) by {
            if occurrences(views(a@), x) > 0 {
                let k = lemma_occurs_somewhere(views(a@), x);
            } else if occurrences(views(b@), x) > 0 {
                let k = lemma_occurs_somewhere(views(b@), x);
            }
        }
    }
    true
}

proof fn lemma_occurs_somewhere(s: Seq<Seq<char>>, x: Seq<char>) -> (k: int)
    requires
        occurrences(s, x) > 0,
    ensures
        0 <= k < s.len(),
        s[k] == x,
    decreases s.len(),
{
    if s.last() == x {
        s.len() - 1
    } else {
        lemma_occurs_somewhere(s.drop_last(), x)
    }
}

fn strings_eq(a: &Vec<String>, b: &Vec<String>) -> (r: bool)
    ensures
        r == (views(a@) == views(b@)),
{
    if a.len() != b.len() {
        proof {
            assert(views(a@).len() != views(b@).len());
        }
        return false;
    }
    let mut i: usize = 0;
    while i < a.len()
        invariant
            a@.len() == b@.len(),
            i <= a@.len(),
            forall|k: int| 0 <= k < i ==> a@[k]@ == b@[k]@,
        decreases a@.len() - i,
    {
        if !str_eq(a[i].as_str(), b[i].as_str()) {
            proof {
                assert(views(a@)[i as int] != views(b@)[i as int]);
            }
            return false;
        }
        i = i + 1;
    }
    proof {
        assert(views(a@) =~= views(b@));
    }
    true
}

/// What `check` finds for `alt` in a handler reading `source`.
pub open spec fn drift_of(alt: LoweredAlternative, source: Seq<char>) -> Option<(bool, Seq<Seq<char>>)> {
    match signature_params_spec(source) {
        None => None,
        Some(found) => match compare_spec(expected_names(alt), found) {
            None => None,
            Some(b) => Some((b, found)),
        },
    }
}

/// Whether `read`, asked for the handler of `alt`, may give a text in which
/// `check` finds `d`.
pub open spec fn drift_read<F: Fn(&str) -> Option<String>>(read: F, alt: LoweredAlternative, d: Drift) -> bool {
    exists|p: &str, t: String| p@ == handler_path(alt) && read.ensures((p,), Some(t)) && drift_found(alt, t@, d)
}

/// Whether `read`, asked for the handler of `alt`, may give nothing, or a
/// text in which `check` finds no drift.
pub open spec fn no_drift_read<F: Fn(&str) -> Option<String>>(read: F, alt: LoweredAlternative) -> bool {
    exists|p: &str, r: Option<String>|
        p@ == handler_path(alt) && read.ensures((p,), r) && (r matches Some(t) ==> drift_of(alt, t@) is None)
}

/// Whether `d` is the drift `check` reports for `alt` in `source`.
pub open spec fn drift_found(alt: LoweredAlternative, source: Seq<char>, d: Drift) -> bool {
    match drift_of(alt, source) {
        None => false,
        Some((true, found)) => d matches Drift::Reordered { expected, found: f } && views(expected@) == expected_names(alt)
            && views(f@) == found,
        Some((false, found)) => d matches Drift::Renamed { expected, found: f } && views(expected@) == expected_names(alt)
            && views(f@) == found,
    }
}

/// Compares one handler's `run` signature against its grammar alternative.
///
/// `source` is the handler file's text. `None` when they agree, when the
/// parameter counts differ, or when the file has no signature this can read.
pub fn check(alt: &LoweredAlternative, source: &str) -> (r: Option<Drift>)
    ensures
        match signature_params_spec(source@) {
            None => r is None,
            Some(found) => match compare_spec(expected_names(*alt), found) {
                None => r is None,
                Some(true) => r matches Some(Drift::Reordered { expected, found: f }) && views(expected@)
                    == expected_names(*alt) && views(f@) == found,
                Some(false) => r matches Some(Drift::Renamed { expected, found: f }) && views(expected@)
                    == expected_names(*alt) && views(f@) == found,
            },
        },
{
    let ps = params(alt);
    let mut expected: Vec<String> = Vec::new();
    let mut i: usize = 0;
    while i < ps.len()
        invariant
            i <= ps@.len(),
            ps@.len() == first_bindings(alt.bindings@).len(),
            forall|k: int| 0 <= k < ps@.len() ==> (#[trigger] ps@[k]).name@ == first_bindings(alt.bindings@)[k].name@,
            views(expected@) == expected_names(*alt).take(i as int),
        decreases ps@.len() - i,
    {
        let ghost prev = views(expected@);
        let id = ident(ps[i].name.as_str());
        expected.push(id);
        proof {
            let fb = first_bindings(alt.bindings@);
            assert(ps@[i as int].name@ == fb[i as int].name@);
            assert(expected_names(*alt)[i as int] == ident_spec(fb[i as int].name@));
            assert(views(expected@) =~= prev.push(ident_spec(fb[i as int].name@)));
            assert(expected_names(*alt).take(i + 1) =~= expected_names(*alt).take(i as int).push(expected_names(*alt)[i as int]));
        }
        i = i + 1;
    }
    proof {
        assert(expected_names(*alt).take(ps@.len() as int) =~= expected_names(*alt));
    }
    let found = match signature_params(source) {
        Some(f) => f,
        None => return None,
    };
    if strings_eq(&expected, &found) {
        return None;
    }
    if expected.len() != found.len() {
        return None;
    }
    if same_counts(&expected, &found) {
        Some(Drift::Reordered { expected, found })
    } else {
        Some(Drift::Renamed { expected, found })
    }
}

/// The path of the handler file for a generated alternative rule.
pub open spec fn handler_path(alt: LoweredAlternative) -> Seq<char> {
    "handlers/"@ + alt.pest_rule@ + ".rs"@
}

/// Every handler whose file disagrees with the grammar, in grammar order.
///
/// `read` gives a handler file's text by path, or `None` when there is no
/// such file; what it returns is the caller's, so each report is stated of
/// whatever text it handed back.
pub fn check_all<'a, F: Fn(&str) -> Option<String>>(lowered: &'a Lowered, read: F) -> (out: Vec<(&'a LoweredAlternative, Drift)>)
    requires
        forall|p: &str| read.requires((p,)),
    ensures
        forall|k: int| 0 <= k < out@.len() ==> lowered.alternatives@.contains(*(#[trigger] out@[k]).0),
        forall|k: int|
            #![trigger out@[k]]
            0 <= k < out@.len() ==> drift_read(read, *out@[k].0, out@[k].1),
        forall|i: int|
            #![trigger lowered.alternatives@[i]]
            0 <= i < lowered.alternatives@.len() && !(exists|k: int|
                0 <= k < out@.len() && #[trigger] out@[k].0 == &lowered.alternatives@[i]) ==> no_drift_read(read, lowered.alternatives@[i]),
{
    let mut out: Vec<(&'a LoweredAlternative, Drift)> = Vec::new();
    let ghost mut idx: Seq<int> = Seq::empty();
    let mut i: usize = 0;
    while i < lowered.alternatives.len()
        invariant
            i <= lowered.alternatives@.len(),
            forall|p: &str| read.requires((p,)),
            idx.len() == out@.len(),
            forall|k: int| 0 <= k < out@.len() ==> 0 <= #[trigger] idx[k] < i && *out@[k].0 == lowered.alternatives@[idx[k]],
            forall|k: int| 0 <= k < out@.len() ==> out@[k].0 == &lowered.alternatives@[#[trigger] idx[k]],
            forall|k: int|
                #![trigger out@[k]]
                0 <= k < out@.len() ==> drift_read(read, *out@[k].0, out@[k].1),
            forall|j: int|
                #![trigger lowered.alternatives@[j]]
                0 <= j < i && !(exists|k: int| 0 <= k < out@.len() && #[trigger] out@[k].0 == &lowered.alternatives@[j])
                    ==> no_drift_read(read, lowered.alternatives@[j]),
        decreases lowered.alternatives@.len() - i,
    {
        let alt = &lowered.alternatives[i];
        let mut path = owned("handlers/");
        path.append(alt.pest_rule.as_str());
        path.append(".rs");
        let ps = path.as_str();
        proof { assert(ps@ == handler_path(*alt)); }
        let got = read(ps);
        let ghost o0 = out@;
        let ghost found = false;
        match &got {
            Some(text) => {
                match check(alt, text.as_str()) {
                    Some(d) => {
                        proof { assert(drift_found(*alt, text@, d)); }
                        out.push((alt, d));
                        proof {
                            idx = idx.push(i as int);
                            assert(out@.last().0 == &lowered.alternatives@[i as int]);
                        }
                    },
                    None => {},
                }
            },
            None => {},
        }
        proof {
            assert forall|k: int| #![trigger out@[k]] 0 <= k < out@.len() implies drift_read(read, *out@[k].0, out@[k].1) by {
                if k < o0.len() {
                    assert(out@[k] == o0[k]);
                }
            }
            assert forall|j: int|
                #![trigger lowered.alternatives@[j]]
                0 <= j < i + 1 && !(exists|k: int| 0 <= k < out@.len() && #[trigger] out@[k].0 == &lowered.alternatives@[j])
                    implies no_drift_read(read, lowered.alternatives@[j]) by {
                if j < i {
                    if exists|k: int| 0 <= k < o0.len() && #[trigger] o0[k].0 == &lowered.alternatives@[j] {
                        let k = choose|k: int| 0 <= k < o0.len() && #[trigger] o0[k].0 == &lowered.alternatives@[j];
                        assert(out@[k] == o0[k]);
                    }
                } else {
                    assert(read.ensures((ps,), got));
                    if out@.len() > o0.len() {
                        assert(out@[o0.len() as int].0 == &lowered.alternatives@[j]);
                    }
                }
            }
        }
        i = i + 1;
    }
    proof {
        assert(i == lowered.alternatives@.len());
        assert forall|k: int| 0 <= k < out@.len() implies lowered.alternatives@.contains(*(#[trigger] out@[k]).0) by {
            assert(0 <= idx[k] < lowered.alternatives@.len());
            assert(*out@[k].0 == lowered.alternatives@[idx[k]]);
        }
    }
    out
}

} // verus!
