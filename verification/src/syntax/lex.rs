//! Splitting `.nh` text into tokens.
//!
//! Identifiers are taken maximally, so a keyword immediately followed by
//! identifier characters is not that keyword: `rulex` is one identifier.

use vstd::prelude::*;
use crate::syntax::error::Diagnostic;
use crate::syntax::source::{utf8_len, char_utf8_len, FileId, Span};
use crate::text::{owned, push_char, string_of};

verus! {

#[derive(Clone, Copy, PartialEq, Eq, Structural, Debug)]
pub enum TokKind {
    /// An identifier or keyword; `case-insensitive` and `case-sensitive` are
    /// single tokens.
    Ident,
    /// A string literal; `text` holds the unescaped value.
    Str,
    /// Punctuation; `text` holds its spelling.
    Punct,
}

#[derive(Debug)]
pub struct Tok {
    pub kind: TokKind,
    pub text: String,
    /// Byte offsets of the token in the file.
    pub lo: u32,
    pub hi: u32,
}

pub open spec fn is_alpha(c: char) -> bool {
    ('a' <= c && c <= 'z') || ('A' <= c && c <= 'Z')
}

pub open spec fn is_digit(c: char) -> bool {
    '0' <= c && c <= '9'
}

pub open spec fn ident_start(c: char) -> bool {
    is_alpha(c) || c == '_'
}

pub open spec fn ident_cont(c: char) -> bool {
    is_alpha(c) || is_digit(c) || c == '_'
}

pub fn is_ident_start(c: char) -> (b: bool)
    ensures
        b == ident_start(c),
{
    ('a' <= c && c <= 'z') || ('A' <= c && c <= 'Z') || c == '_'
}

pub fn is_ident_cont(c: char) -> (b: bool)
    ensures
        b == ident_cont(c),
{
    ('a' <= c && c <= 'z') || ('A' <= c && c <= 'Z') || ('0' <= c && c <= '9') || c == '_'
}

/// The value of a hexadecimal digit.
pub open spec fn hex_value(c: char) -> int {
    if '0' <= c && c <= '9' {
        c as int - '0' as int
    } else if 'a' <= c && c <= 'f' {
        c as int - 'a' as int + 10
    } else if 'A' <= c && c <= 'F' {
        c as int - 'A' as int + 10
    } else {
        -1
    }
}

fn hex_digit(c: char) -> (r: Option<u32>)
    ensures
        match r {
            Some(v) => v == hex_value(c) && 0 <= hex_value(c) < 16,
            None => hex_value(c) < 0,
        },
{
    if '0' <= c && c <= '9' {
        Some((c as u32) - ('0' as u32))
    } else if 'a' <= c && c <= 'f' {
        Some((c as u32) - ('a' as u32) + 10)
    } else if 'A' <= c && c <= 'F' {
        Some((c as u32) - ('A' as u32) + 10)
    } else {
        None
    }
}

/// Whether `v` is a Unicode scalar value, i.e. a `char`.
pub open spec fn is_scalar_value(v: u32) -> bool {
    v < 0xD800 || (0xDFFF < v && v <= 0x10FFFF)
}

/// The character with scalar value `v` (std's `char::from_u32`).
#[verifier::external_body]
fn char_from_u32(v: u32) -> (r: Option<char>)
    ensures
        is_scalar_value(v) ==> r == Some(v as char),
        !is_scalar_value(v) ==> r is None,
{
    char::from_u32(v)
}

/// Whether `chars[at..]` begins with `word` and the word is not followed by an
/// identifier character.
fn word_at(chars: &Vec<char>, at: usize, word: &str) -> (b: bool)
    ensures
        b ==> at + word@.len() <= chars@.len(),
        b ==> chars@.subrange(at as int, at + word@.len()) == word@,
        b == (at + word@.len() <= chars@.len() && chars@.subrange(at as int, at + word@.len()) == word@
            && !(at + word@.len() < chars@.len() && ident_cont(chars@[at + word@.len()]))),
{
    let w = crate::text::chars_of(word);
    let n = chars.len();
    if at > chars.len() || w.len() > chars.len() - at {
        return false;
    }
    let mut i: usize = 0;
    while i < w.len()
        invariant
            n == chars@.len(),
            at + w@.len() <= chars@.len(),
            w@ == word@,
            i <= w@.len(),
            forall|j: int| 0 <= j < i ==> chars@[at + j] == w@[j],
        decreases w@.len() - i,
    {
        if chars[at + i] != w[i] {
            proof { assert(chars@.subrange(at as int, at + w@.len())[i as int] != w@[i as int]); }
            return false;
        }
        i = i + 1;
    }
    if at + w.len() < chars.len() && is_ident_cont(chars[at + w.len()]) {
        return false;
    }
    assert(chars@.subrange(at as int, at + w@.len()) =~= w@);
    true
}

fn punct2(a: char, b: char) -> (r: Option<&'static str>)
    ensures
        r == (if a == ':' && b == ':' {
            Some("::")
        } else if a == '-' && b == '>' {
            Some("->")
        } else if a == '.' && b == '.' {
            Some("..")
        } else {
            None::<&'static str>
        }),
{
    if a == ':' && b == ':' {
        Some("::")
    } else if a == '-' && b == '>' {
        Some("->")
    } else if a == '.' && b == '.' {
        Some("..")
    } else {
        None
    }
}

fn punct1(c: char) -> (r: bool)
    ensures
        r == (c == ';' || c == '=' || c == '|' || c == '(' || c == ')' || c == '{' || c == '}' || c == ':'
            || c == '*' || c == '+' || c == '?' || c == '!' || c == '&' || c == '^' || c == '.'
            || c == ',' || c == '@'),
{
    c == ';' || c == '=' || c == '|' || c == '(' || c == ')' || c == '{' || c == '}' || c == ':'
        || c == '*' || c == '+' || c == '?' || c == '!' || c == '&' || c == '^' || c == '.'
        || c == ',' || c == '@'
}

/// Bytes of `s` up to character index `k`.
pub open spec fn bytes_to(s: Seq<char>, k: int) -> int
    decreases k,
{
    if k <= 0 || s.len() == 0 {
        0
    } else if k > s.len() {
        bytes_to(s, s.len() as int)
    } else {
        bytes_to(s, k - 1) + utf8_len(s[k - 1])
    }
}

proof fn lemma_bytes_to_mono(s: Seq<char>, a: int, b: int)
    requires
        0 <= a <= b <= s.len(),
    ensures
        bytes_to(s, a) <= bytes_to(s, b),
    decreases b - a,
{
    if a < b {
        lemma_bytes_to_mono(s, a, b - 1);
    }
}

proof fn lemma_bytes_to_bound(s: Seq<char>, k: int)
    requires
        0 <= k <= s.len(),
    ensures
        0 <= bytes_to(s, k) <= 4 * k,
    decreases k,
{
    if k > 0 && s.len() > 0 {
        lemma_bytes_to_bound(s, k - 1);
    }
}

/// Walks one character forward, keeping the byte offset in step.
fn advance(chars: &Vec<char>, i: usize, at: u128) -> (r: (usize, u128))
    requires
        i < chars@.len(),
        at == bytes_to(chars@, i as int),
    ensures
        r.0 == i + 1,
        r.1 == bytes_to(chars@, i + 1),
        r.0 <= chars@.len(),
{
    let n = chars.len();
    proof { lemma_bytes_to_bound(chars@, i as int); }
    (i + 1, at + char_utf8_len(chars[i]) as u128)
}

/// A byte offset as the `u32` that spans carry (wrapping past 4 GiB).
fn offset(v: u128) -> (r: u32)
    ensures
        v <= u32::MAX ==> r == v,
{
    #[verifier::truncate]
    (v as u32)
}

fn diag_at(file: FileId, lo: u128, hi: u128, msg: &str) -> (d: Diagnostic)
    ensures
        d.message@ == msg@,
        d.span matches Some(s) && s.file == file,
        d.severity == crate::syntax::error::Severity::Error,
        lo <= u32::MAX && hi <= u32::MAX ==> d.span == Some(Span { file, lo: lo as u32, hi: hi as u32 }),
{
    Diagnostic::error(msg).at(Span::new(file, offset(lo), offset(hi)))
}

/// The byte length of `chars` in UTF-8, as the `u32` offsets spans carry.
pub fn end_offset(chars: &Vec<char>) -> (r: u32)
    ensures
        bytes_to(chars@, chars@.len() as int) <= u32::MAX ==> r == bytes_to(
            chars@,
            chars@.len() as int,
        ),
{
    let mut i: usize = 0;
    let mut at: u128 = 0;
    while i < chars.len()
        invariant
            i <= chars@.len(),
            at == bytes_to(chars@, i as int),
        decreases chars@.len() - i,
    {
        let (ni, na) = advance(chars, i, at);
        i = ni;
        at = na;
    }
    offset(at)
}

/// Whether every token lies inside the text and tokens come in order.
pub open spec fn toks_ordered(toks: Seq<Tok>, total: int) -> bool {
    &&& forall|k: int| 0 <= k < toks.len() ==> #[trigger] toks[k].lo <= toks[k].hi
    &&& forall|k: int| 0 <= k < toks.len() ==> #[trigger] toks[k].hi <= total
}

/// A token of the text: its kind, its text (a string's unescaped value), and
/// the character positions it spans.
pub struct LexTok {
    pub kind: TokKind,
    pub text: Seq<char>,
    pub start: int,
    pub end: int,
}

/// Why lexing stopped.
#[derive(PartialEq, Eq, Structural)]
pub enum LexFail {
    UnterminatedString,
    UnterminatedEscape,
    UnexpectedChar,
}

pub open spec fn fail_message(f: LexFail) -> Seq<char> {
    match f {
        LexFail::UnterminatedString => "unterminated string literal"@,
        LexFail::UnterminatedEscape => "unterminated `\\u{..}` escape"@,
        LexFail::UnexpectedChar => "unexpected character"@,
    }
}

/// What the text at one position is: room between tokens ending at the
/// index given, a token ending there, or a failure spanning up to there.
pub enum LexStep {
    Skip(int),
    Emit(TokKind, Seq<char>, int),
    Fail(LexFail, int),
}

/// Where a `//` comment whose text continues at `j` ends: at the line
/// break, or at the end of the text.
pub open spec fn comment_end(s: Seq<char>, j: int) -> int
    decreases s.len() - j,
{
    if 0 <= j < s.len() && s[j] != '\n' {
        comment_end(s, j + 1)
    } else {
        j
    }
}

/// Where the identifier characters from `j` on end.
pub open spec fn ident_end(s: Seq<char>, j: int) -> int
    decreases s.len() - j,
{
    if 0 <= j < s.len() && ident_cont(s[j]) {
        ident_end(s, j + 1)
    } else {
        j
    }
}

/// Whether `w` stands at `at`, not followed by an identifier character.
pub open spec fn word_here(s: Seq<char>, at: int, w: Seq<char>) -> bool {
    &&& 0 <= at
    &&& at + w.len() <= s.len()
    &&& s.subrange(at, at + w.len()) == w
    &&& !(at + w.len() < s.len() && ident_cont(s[at + w.len()]))
}

/// The hex digits of a `\u{..}` escape from `k` on, up to a `}` or `"`:
/// where they stop, the value, whether it is still in range, and whether any
/// digit was seen. A `{` is passed over; any other non-digit spoils the value.
pub open spec fn hex_scan(s: Seq<char>, k: int, v: u32, ok: bool, any: bool) -> (int, u32, bool, bool)
    decreases s.len() - k,
{
    if 0 <= k < s.len() && s[k] != '}' && s[k] != '"' {
        let c = s[k];
        if c == '{' {
            hex_scan(s, k + 1, v, ok, any)
        } else if hex_value(c) >= 0 {
            if ok && v <= 0x10FFFF {
                let w = v * 16 + hex_value(c);
                if w > 0x10FFFF {
                    hex_scan(s, k + 1, 0, false, true)
                } else {
                    hex_scan(s, k + 1, w as u32, true, true)
                }
            } else {
                hex_scan(s, k + 1, v, false, true)
            }
        } else {
            hex_scan(s, k + 1, v, false, any)
        }
    } else {
        (k, v, ok, any)
    }
}

/// A string literal's body from `j` on, `acc` unescaped so far: the value and
/// the index after the closing quote, or whether an escape was left open and
/// where the literal stopped.
pub open spec fn str_scan(s: Seq<char>, j: int, acc: Seq<char>) -> Result<(Seq<char>, int), (bool, int)>
    decreases s.len() - j,
{
    if j < 0 || j >= s.len() {
        Err((false, j))
    } else {
        let d = s[j];
        if d == '"' {
            Ok((acc, j + 1))
        } else if d == '\\' {
            if j + 1 >= s.len() {
                str_scan(s, j + 1, acc.push('\\'))
            } else {
                let e = s[j + 1];
                if e == 'n' {
                    str_scan(s, j + 2, acc.push('\n'))
                } else if e == 'r' {
                    str_scan(s, j + 2, acc.push('\r'))
                } else if e == 't' {
                    str_scan(s, j + 2, acc.push('\t'))
                } else if e == '0' {
                    str_scan(s, j + 2, acc.push('\0'))
                } else if e == 'u' {
                    let h = hex_scan(s, j + 2, 0, true, false);
                    if j < h.0 < s.len() && s[h.0] == '}' {
                        str_scan(
                            s,
                            h.0 + 1,
                            if h.2 && h.3 && is_scalar_value(h.1) {
                                acc.push(h.1 as char)
                            } else {
                                acc
                            },
                        )
                    } else {
                        Err((true, h.0))
                    }
                } else {
                    str_scan(s, j + 2, acc.push(e))
                }
            }
        } else {
            str_scan(s, j + 1, acc.push(d))
        }
    }
}

/// Whether the result of a scan is what `str_scan` gives.
pub open spec fn scan_is(spec: Result<(Seq<char>, int), (bool, int)>, r: Result<String, bool>, end: int) -> bool {
    match spec {
        Ok((v, e)) => r matches Ok(val) && val@ == v && end == e,
        Err((esc, hi)) => r == Err::<String, bool>(esc) && end == hi,
    }
}

pub open spec fn punct2_spec(a: char, b: char) -> Option<Seq<char>> {
    if a == ':' && b == ':' {
        Some("::"@)
    } else if a == '-' && b == '>' {
        Some("->"@)
    } else if a == '.' && b == '.' {
        Some(".."@)
    } else {
        None
    }
}

pub open spec fn punct1_spec(c: char) -> bool {
    c == ';' || c == '=' || c == '|' || c == '(' || c == ')' || c == '{' || c == '}' || c == ':' || c == '*'
        || c == '+' || c == '?' || c == '!' || c == '&' || c == '^' || c == '.' || c == ',' || c == '@'
}

pub open spec fn is_blank(c: char) -> bool {
    c == ' ' || c == '\t' || c == '\n' || c == '\r'
}

/// What the text holds at position `i`. Identifiers are taken maximally;
/// `case` followed by `-insensitive` or `-sensitive` (as whole words) is one
/// identifier; two-character punctuation wins over one.
pub open spec fn lex_step(s: Seq<char>, i: int) -> LexStep {
    let c = s[i];
    if is_blank(c) {
        LexStep::Skip(i + 1)
    } else if c == '/' && i + 1 < s.len() && s[i + 1] == '/' {
        LexStep::Skip(comment_end(s, i + 1))
    } else if ident_start(c) {
        let e = ident_end(s, i + 1);
        let name = s.subrange(i, e);
        if name == "case"@ && e < s.len() && s[e] == '-' && word_here(s, e + 1, "insensitive"@) {
            LexStep::Emit(TokKind::Ident, name + "-insensitive"@, e + 12)
        } else if name == "case"@ && e < s.len() && s[e] == '-' && word_here(s, e + 1, "sensitive"@) {
            LexStep::Emit(TokKind::Ident, name + "-sensitive"@, e + 10)
        } else {
            LexStep::Emit(TokKind::Ident, name, e)
        }
    } else if c == '"' {
        match str_scan(s, i + 1, Seq::empty()) {
            Ok((v, j)) => LexStep::Emit(TokKind::Str, v, j),
            Err((esc, hi)) => LexStep::Fail(
                if esc {
                    LexFail::UnterminatedEscape
                } else {
                    LexFail::UnterminatedString
                },
                hi,
            ),
        }
    } else if i + 1 < s.len() && punct2_spec(c, s[i + 1]) is Some {
        LexStep::Emit(TokKind::Punct, punct2_spec(c, s[i + 1])->0, i + 2)
    } else if punct1_spec(c) {
        LexStep::Emit(TokKind::Punct, seq![c], i + 1)
    } else {
        LexStep::Fail(LexFail::UnexpectedChar, i + 1)
    }
}

/// The tokens of `s` from position `i` on, after `acc`; or the failure with
/// the character positions it spans.
pub open spec fn lex_from(s: Seq<char>, i: int, acc: Seq<LexTok>) -> Result<Seq<LexTok>, (LexFail, int, int)>
    decreases s.len() - i,
{
    if 0 <= i < s.len() {
        match lex_step(s, i) {
            LexStep::Skip(j) => if i < j <= s.len() {
                lex_from(s, j, acc)
            } else {
                Ok(acc)
            },
            LexStep::Emit(kind, text, j) => if i < j <= s.len() {
                lex_from(s, j, acc.push(LexTok { kind, text, start: i, end: j }))
            } else {
                Ok(acc)
            },
            LexStep::Fail(f, hi) => Err((f, i, hi)),
        }
    } else {
        Ok(acc)
    }
}

/// The tokens of the whole text, or why it has none.
pub open spec fn lex_spec(s: Seq<char>) -> Result<Seq<LexTok>, (LexFail, int, int)> {
    lex_from(s, 0, Seq::empty())
}

/// Whether `t` is lexed token `l` of the text `s`: kind and text, and, when
/// the text's byte offsets fit in 32 bits, its byte span.
pub open spec fn tok_is(t: Tok, l: LexTok, s: Seq<char>) -> bool {
    &&& t.kind == l.kind
    &&& t.text@ == l.text
    &&& bytes_to(s, s.len() as int) <= u32::MAX ==> t.lo == bytes_to(s, l.start) && t.hi == bytes_to(s, l.end)
}

proof fn lemma_comment_end(s: Seq<char>, j: int)
    requires
        0 <= j <= s.len(),
    ensures
        j <= comment_end(s, j) <= s.len(),
    decreases s.len() - j,
{
    if j < s.len() && s[j] != '\n' {
        lemma_comment_end(s, j + 1);
    }
}

proof fn lemma_ident_end(s: Seq<char>, j: int)
    requires
        0 <= j <= s.len(),
    ensures
        j <= ident_end(s, j) <= s.len(),
    decreases s.len() - j,
{
    if j < s.len() && ident_cont(s[j]) {
        lemma_ident_end(s, j + 1);
    }
}

proof fn lemma_hex_scan(s: Seq<char>, k: int, v: u32, ok: bool, any: bool)
    requires
        0 <= k <= s.len(),
    ensures
        k <= hex_scan(s, k, v, ok, any).0 <= s.len(),
    decreases s.len() - k,
{
    if 0 <= k < s.len() && s[k] != '}' && s[k] != '"' {
        let c = s[k];
        if c == '{' {
            lemma_hex_scan(s, k + 1, v, ok, any);
        } else if hex_value(c) >= 0 {
            if ok && v <= 0x10FFFF {
                let w = v * 16 + hex_value(c);
                if w > 0x10FFFF {
                    lemma_hex_scan(s, k + 1, 0, false, true);
                } else {
                    lemma_hex_scan(s, k + 1, w as u32, true, true);
                }
            } else {
                lemma_hex_scan(s, k + 1, v, false, true);
            }
        } else {
            lemma_hex_scan(s, k + 1, v, false, any);
        }
    }
}

proof fn lemma_str_scan(s: Seq<char>, j: int, acc: Seq<char>)
    requires
        0 <= j <= s.len(),
    ensures
        str_scan(s, j, acc) matches Ok((v, e)) ==> j < e <= s.len(),
        str_scan(s, j, acc) matches Err((esc, hi)) ==> j <= hi <= s.len(),
    decreases s.len() - j,
{
    if j < s.len() {
        let d = s[j];
        if d == '"' {
        } else if d == '\\' {
            if j + 1 >= s.len() {
                lemma_str_scan(s, j + 1, acc.push('\\'));
            } else {
                let e = s[j + 1];
                if e == 'n' {
                    lemma_str_scan(s, j + 2, acc.push('\n'));
                } else if e == 'r' {
                    lemma_str_scan(s, j + 2, acc.push('\r'));
                } else if e == 't' {
                    lemma_str_scan(s, j + 2, acc.push('\t'));
                } else if e == '0' {
                    lemma_str_scan(s, j + 2, acc.push('\0'));
                } else if e == 'u' {
                    lemma_hex_scan(s, j + 2, 0, true, false);
                    let h = hex_scan(s, j + 2, 0, true, false);
                    if j < h.0 < s.len() && s[h.0] == '}' {
                        lemma_str_scan(
                            s,
                            h.0 + 1,
                            if h.2 && h.3 && is_scalar_value(h.1) {
                                acc.push(h.1 as char)
                            } else {
                                acc
                            },
                        );
                    }
                } else {
                    lemma_str_scan(s, j + 2, acc.push(e));
                }
            }
        } else {
            lemma_str_scan(s, j + 1, acc.push(d));
        }
    }
}

/// Whether `t` holds neither a quote nor a backslash, so that a string
/// literal takes it as it stands.
pub open spec fn plain_text(t: Seq<char>) -> bool {
    forall|m: int| 0 <= m < t.len() ==> #[trigger] t[m] != '"' && t[m] != '\\'
}

/// The character that the escape `\e` (other than `\u{..}`) stands for:
/// `\n` is U+000A, `\r` U+000D, `\t` U+0009 and `\0` U+0000; any other
/// escaped character, such as a quote or a backslash, stands for itself.
pub open spec fn escaped_char(e: char) -> char {
    if e == 'n' {
        '\u{a}'
    } else if e == 'r' {
        '\u{d}'
    } else if e == 't' {
        '\u{9}'
    } else if e == '0' {
        '\u{0}'
    } else {
        e
    }
}

/// Plain characters are taken into a string's value one for one.
proof fn lemma_str_scan_plain(s: Seq<char>, j: int, k: int, acc: Seq<char>)
    requires
        0 <= j <= k <= s.len(),
        forall|m: int| j <= m < k ==> #[trigger] s[m] != '"' && s[m] != '\\',
    ensures
        str_scan(s, j, acc) == str_scan(s, k, acc + s.subrange(j, k)),
    decreases k - j,
{
    if j < k {
        lemma_str_scan_plain(s, j + 1, k, acc.push(s[j]));
        assert(acc.push(s[j]) + s.subrange(j + 1, k) =~= acc + s.subrange(j, k));
    } else {
        assert(acc + s.subrange(j, k) =~= acc);
    }
}

/// A string literal whose body is plain text around one escape `\e` (not
/// `\u{..}`) lexes to a single string token spanning the whole literal, whose
/// value is that text with the escape replaced by the character it stands
/// for: `\t` by U+0009, `\n` by U+000A, `\r` by U+000D, `\0` by U+0000, and
/// any other `\e` by `e`.
pub proof fn escapes_unescape(a: Seq<char>, e: char, b: Seq<char>)
    requires
        plain_text(a),
        plain_text(b),
        e != 'u',
    ensures
        ({
            let src = seq!['"'] + a + seq!['\\', e] + b + seq!['"'];
            lex_spec(src) == Ok::<Seq<LexTok>, (LexFail, int, int)>(
                seq![LexTok { kind: TokKind::Str, text: a.push(escaped_char(e)) + b, start: 0, end: src.len() as int }],
            )
        }),
{
    let src = seq!['"'] + a + seq!['\\', e] + b + seq!['"'];
    let n = a.len() as int;
    let z = src.len() as int;
    assert(z == n + b.len() + 4);
    assert(src[0] == '"');
    assert(src[n + 1] == '\\');
    assert(src[n + 2] == e);
    assert(src[z - 1] == '"');
    assert forall|m: int| 1 <= m < n + 1 implies #[trigger] src[m] != '"' && src[m] != '\\' by {
        assert(src[m] == a[m - 1]);
    }
    assert forall|m: int| n + 3 <= m < z - 1 implies #[trigger] src[m] != '"' && src[m] != '\\' by {
        assert(src[m] == b[m - n - 3]);
    }
    assert(src.subrange(1, n + 1) =~= a);
    assert(src.subrange(n + 3, z - 1) =~= b);
    lemma_str_scan_plain(src, 1, n + 1, Seq::empty());
    assert(Seq::<char>::empty() + a =~= a);
    let x = escaped_char(e);
    assert(str_scan(src, n + 1, a) == str_scan(src, n + 3, a.push(x)));
    lemma_str_scan_plain(src, n + 3, z - 1, a.push(x));
    assert(str_scan(src, z - 1, a.push(x) + b) == Ok::<(Seq<char>, int), (bool, int)>((a.push(x) + b, z)));
    assert(str_scan(src, 1, Seq::empty()) == Ok::<(Seq<char>, int), (bool, int)>((a.push(x) + b, z)));
    let tok = LexTok { kind: TokKind::Str, text: a.push(x) + b, start: 0, end: z };
    assert(lex_step(src, 0) == LexStep::Emit(TokKind::Str, a.push(x) + b, z));
    assert(lex_from(src, z, seq![tok]) == Ok::<Seq<LexTok>, (LexFail, int, int)>(seq![tok]));
    assert(Seq::<LexTok>::empty().push(tok) =~= seq![tok]);
}

/// The number that the hexadecimal digits `d` spell, most significant first.
pub open spec fn hex_number(d: Seq<char>) -> int
    decreases d.len(),
{
    if d.len() == 0 {
        0
    } else {
        hex_number(d.drop_last()) * 16 + hex_value(d.last())
    }
}

/// Whether every character of `d` is a hexadecimal digit.
pub open spec fn hex_digits(d: Seq<char>) -> bool {
    forall|m: int| 0 <= m < d.len() ==> hex_value(#[trigger] d[m]) >= 0
}

proof fn lemma_hex_number_prefix(d: Seq<char>, j: int)
    requires
        hex_digits(d),
        0 <= j <= d.len(),
    ensures
        0 <= hex_number(d.take(j)) <= hex_number(d),
        j < d.len() ==> hex_number(d.take(j)) * 16 <= hex_number(d),
    decreases d.len() - j,
{
    if j == d.len() {
        assert(d.take(j) =~= d);
        lemma_hex_number_nonneg(d);
    } else {
        lemma_hex_number_prefix(d, j + 1);
        assert(d.take(j + 1).drop_last() =~= d.take(j));
        assert(hex_value(d[j]) >= 0);
        lemma_hex_number_nonneg(d.take(j));
    }
}

proof fn lemma_hex_number_nonneg(d: Seq<char>)
    requires
        hex_digits(d),
    ensures
        hex_number(d) >= 0,
    decreases d.len(),
{
    if d.len() > 0 {
        assert(hex_value(d[d.len() - 1]) >= 0);
        lemma_hex_number_nonneg(d.drop_last());
    }
}

/// Scanning the digits `d`, which stand at `k0` in `s`, accumulates the
/// number they spell.
proof fn lemma_hex_scan_digits(s: Seq<char>, k0: int, d: Seq<char>, j: int)
    requires
        hex_digits(d),
        d.len() > 0,
        hex_number(d) <= 0x10FFFF,
        0 <= k0,
        k0 + d.len() <= s.len(),
        forall|m: int| 0 <= m < d.len() ==> #[trigger] s[k0 + m] == d[m],
        0 <= j <= d.len(),
    ensures
        hex_scan(s, k0 + j, hex_number(d.take(j)) as u32, true, j > 0) == hex_scan(
            s,
            k0 + d.len(),
            hex_number(d) as u32,
            true,
            true,
        ),
    decreases d.len() - j,
{
    if j < d.len() {
        let c = s[k0 + j];
        assert(c == d[j]);
        assert(hex_value(c) >= 0);
        assert(c != '}' && c != '"' && c != '{');
        lemma_hex_number_prefix(d, j);
        lemma_hex_number_prefix(d, j + 1);
        let v = hex_number(d.take(j));
        assert((v as u32) as int == v);
        assert(d.take(j + 1).drop_last() =~= d.take(j));
        assert(d.take(j + 1).last() == c);
        assert(hex_number(d.take(j + 1)) == v * 16 + hex_value(c));
        assert(v <= 0x10FFFF);
        assert(hex_number(d.take(j + 1)) <= 0x10FFFF);
        assert(hex_scan(s, k0 + j, v as u32, true, j > 0) == hex_scan(
            s,
            k0 + j + 1,
            hex_number(d.take(j + 1)) as u32,
            true,
            true,
        ));
        lemma_hex_scan_digits(s, k0, d, j + 1);
    } else {
        assert(d.take(j) =~= d);
    }
}

/// A string literal whose body is plain text around a `\u{..}` escape of
/// hexadecimal digits lexes to a single string token spanning the whole
/// literal, whose value is that text with the escape replaced by the
/// character the digits name, when they name one.
pub proof fn unicode_escape_unescapes(a: Seq<char>, d: Seq<char>, b: Seq<char>)
    requires
        plain_text(a),
        plain_text(b),
        d.len() > 0,
        hex_digits(d),
        hex_number(d) <= 0x10FFFF,
        is_scalar_value(hex_number(d) as u32),
    ensures
        ({
            let src = seq!['"'] + a + seq!['\\', 'u', '{'] + d + seq!['}'] + b + seq!['"'];
            lex_spec(src) == Ok::<Seq<LexTok>, (LexFail, int, int)>(
                seq![
                    LexTok {
                        kind: TokKind::Str,
                        text: a.push((hex_number(d) as u32) as char) + b,
                        start: 0,
                        end: src.len() as int,
                    },
                ],
            )
        }),
{
    let src = seq!['"'] + a + seq!['\\', 'u', '{'] + d + seq!['}'] + b + seq!['"'];
    let n = a.len() as int;
    let nd = d.len() as int;
    let z = src.len() as int;
    let c = (hex_number(d) as u32) as char;
    assert(z == n + nd + b.len() + 6);
    assert(src[0] == '"');
    assert(src[n + 1] == '\\');
    assert(src[n + 2] == 'u');
    assert(src[n + 3] == '{');
    assert(src[n + 4 + nd] == '}');
    assert(src[z - 1] == '"');
    assert forall|m: int| 1 <= m < n + 1 implies #[trigger] src[m] != '"' && src[m] != '\\' by {
        assert(src[m] == a[m - 1]);
    }
    assert forall|m: int| n + nd + 5 <= m < z - 1 implies #[trigger] src[m] != '"' && src[m] != '\\' by {
        assert(src[m] == b[m - n - nd - 5]);
    }
    assert forall|m: int| 0 <= m < nd implies #[trigger] src[n + 4 + m] == d[m] by {}
    assert(src.subrange(1, n + 1) =~= a);
    assert(src.subrange(n + nd + 5, z - 1) =~= b);
    lemma_str_scan_plain(src, 1, n + 1, Seq::empty());
    assert(Seq::<char>::empty() + a =~= a);
    assert(d.take(0) =~= Seq::<char>::empty());
    lemma_hex_scan_digits(src, n + 4, d, 0);
    assert(hex_scan(src, n + 3, 0, true, false) == hex_scan(src, n + 4, 0, true, false));
    assert(hex_scan(src, n + 4 + nd, hex_number(d) as u32, true, true) == (
        n + 4 + nd,
        hex_number(d) as u32,
        true,
        true,
    ));
    assert(str_scan(src, n + 1, a) == str_scan(src, n + nd + 5, a.push(c)));
    lemma_str_scan_plain(src, n + nd + 5, z - 1, a.push(c));
    assert(str_scan(src, z - 1, a.push(c) + b) == Ok::<(Seq<char>, int), (bool, int)>((a.push(c) + b, z)));
    assert(str_scan(src, 1, Seq::empty()) == Ok::<(Seq<char>, int), (bool, int)>((a.push(c) + b, z)));
    let tok = LexTok { kind: TokKind::Str, text: a.push(c) + b, start: 0, end: z };
    assert(lex_step(src, 0) == LexStep::Emit(TokKind::Str, a.push(c) + b, z));
    assert(lex_from(src, z, seq![tok]) == Ok::<Seq<LexTok>, (LexFail, int, int)>(seq![tok]));
    assert(Seq::<LexTok>::empty().push(tok) =~= seq![tok]);
}

/// Scans the hex digits of a `\u{..}` escape from `i`.
fn scan_hex(chars: &Vec<char>, from: usize, from_at: u128) -> (r: (u32, bool, bool, usize, u128))
    requires
        from <= chars@.len(),
        from_at == bytes_to(chars@, from as int),
    ensures
        (r.3 as int, r.0, r.1, r.2) == hex_scan(chars@, from as int, 0, true, false),
        r.4 == bytes_to(chars@, r.3 as int),
        from <= r.3 <= chars@.len(),
{
    let n = chars.len();
    let mut i = from;
    let mut at = from_at;
    let mut v: u32 = 0;
    let mut ok = true;
    let mut any = false;
    let ghost i0 = i;
    while i < n && chars[i] != '}' && chars[i] != '"'
        invariant
            n == chars@.len(),
            i0 <= i <= chars@.len(),
            at == bytes_to(chars@, i as int),
            v <= 0x10FFFF,
            hex_scan(chars@, i0 as int, 0, true, false) == hex_scan(chars@, i as int, v, ok, any),
        decreases chars@.len() - i,
    {
        let h = chars[i];
        if h != '{' {
            match hex_digit(h) {
                Some(x) => {
                    if ok && v <= 0x10FFFF {
                        v = v * 16 + x;
                        if v > 0x10FFFF {
                            ok = false;
                            v = 0;
                        }
                    } else {
                        ok = false;
                    }
                    any = true;
                },
                None => {
                    ok = false;
                },
            }
        }
        let (ni, na) = advance(chars, i, at);
        i = ni;
        at = na;
    }
    (v, ok, any, i, at)
}

/// Scans a string literal's body from `i`, just after its opening quote:
/// the value, or whether an escape was left open; and where it stopped.
fn scan_string(chars: &Vec<char>, from: usize, from_at: u128) -> (r: (Result<String, bool>, usize, u128))
    requires
        from <= chars@.len(),
        from_at == bytes_to(chars@, from as int),
    ensures
        r.2 == bytes_to(chars@, r.1 as int),
        r.1 <= chars@.len(),
        scan_is(str_scan(chars@, from as int, Seq::empty()), r.0, r.1 as int),
{
    let n = chars.len();
    let mut i = from;
    let mut at = from_at;
    let mut value = String::new();
    let ghost i0 = i;
    proof { lemma_str_scan(chars@, i as int, Seq::empty()); }
    while i < n
        invariant
            n == chars@.len(),
            i0 == from,
            i0 <= i <= chars@.len(),
            at == bytes_to(chars@, i as int),
            str_scan(chars@, i0 as int, Seq::empty()) == str_scan(chars@, i as int, value@),
        decreases chars@.len() - i,
    {
        let d = chars[i];
        let ghost i1 = i;
        let ghost v1 = value@;
        let (ni, na) = advance(chars, i, at);
        i = ni;
        at = na;
        if d == '"' {
            proof {
                assert(str_scan(chars@, i1 as int, v1) == Ok::<(Seq<char>, int), (bool, int)>((v1, i1 + 1)));
                assert(scan_is(str_scan(chars@, i0 as int, Seq::empty()), Ok::<String, bool>(value), i as int));
            }
            return (Ok(value), i, at);
        } else if d == '\\' {
            if i >= n {
                push_char(&mut value, '\\');
            } else {
                let e = chars[i];
                let (ni, na) = advance(chars, i, at);
                i = ni;
                at = na;
                if e == 'n' {
                    push_char(&mut value, '\n');
                } else if e == 'r' {
                    push_char(&mut value, '\r');
                } else if e == 't' {
                    push_char(&mut value, '\t');
                } else if e == '0' {
                    push_char(&mut value, '\0');
                } else if e == 'u' {
                    let (hv, ok, any, k, ka) = scan_hex(chars, i, at);
                    i = k;
                    at = ka;
                    if i < n && chars[i] == '}' {
                        let (ni, na) = advance(chars, i, at);
                        i = ni;
                        at = na;
                    } else {
                        proof {
                            assert(str_scan(chars@, i1 as int, v1) == Err::<(Seq<char>, int), (bool, int)>((true, i as int)));
                        }
                        return (Err(true), i, at);
                    }
                    if ok && any {
                        match char_from_u32(hv) {
                            Some(ch) => push_char(&mut value, ch),
                            None => {},
                        }
                    }
                } else {
                    push_char(&mut value, e);
                }
            }
        } else {
            push_char(&mut value, d);
        }
    }
    proof {
        assert(str_scan(chars@, i as int, value@) == Err::<(Seq<char>, int), (bool, int)>((false, i as int)));
    }
    (Err(false), i, at)
}

/// Tokenizes `chars`, the whole text of `file`.
///
/// Whitespace and `//` comments separate tokens; an unterminated string or a
/// character that starts no token is an error located in `file`. The tokens
/// are exactly those `lex_spec` gives, with their byte spans; a failure
/// carries the message and span of the failure it gives.
pub fn lex(chars: &Vec<char>, file: FileId) -> (r: Result<Vec<Tok>, Diagnostic>)
    ensures
        r matches Err(d) ==> d.span matches Some(s) && s.file == file,
        r matches Ok(toks) ==> (bytes_to(chars@, chars@.len() as int) <= u32::MAX ==> toks_ordered(
            toks@,
            bytes_to(chars@, chars@.len() as int),
        )),
        match lex_spec(chars@) {
            Ok(ts) => r matches Ok(toks) && toks@.len() == ts.len() && forall|k: int|
                0 <= k < ts.len() ==> tok_is(#[trigger] toks@[k], ts[k], chars@),
            Err((f, lo, hi)) => r matches Err(d) && d.message@ == fail_message(f) && d.severity
                == crate::syntax::error::Severity::Error && (bytes_to(chars@, chars@.len() as int) <= u32::MAX
                ==> d.span == Some(Span { file, lo: bytes_to(chars@, lo) as u32, hi: bytes_to(chars@, hi) as u32 })),
        },
{
    let mut toks: Vec<Tok> = Vec::new();
    let ghost mut acc: Seq<LexTok> = Seq::empty();
    let mut i: usize = 0;
    let mut at: u128 = 0;
    let n = chars.len();
    let ghost s = chars@;
    let ghost fits = bytes_to(s, s.len() as int) <= u32::MAX;
    while i < n
        invariant
            n == chars@.len(),
            s == chars@,
            fits == (bytes_to(s, s.len() as int) <= u32::MAX),
            i <= chars@.len(),
            at == bytes_to(chars@, i as int),
            fits ==> toks_ordered(toks@, bytes_to(chars@, i as int)),
            lex_spec(s) == lex_from(s, i as int, acc),
            toks@.len() == acc.len(),
            forall|k: int| 0 <= k < acc.len() ==> tok_is(#[trigger] toks@[k], acc[k], s),
        decreases chars@.len() - i,
    {
        let c = chars[i];
        let start = at;
        let ghost i0 = i;
        proof {
            lemma_bytes_to_mono(chars@, i as int, chars@.len() as int);
            lemma_bytes_to_bound(chars@, i as int);
        }
        let ghost step = lex_step(s, i as int);
        let ghost next_acc = acc;
        if c == ' ' || c == '\t' || c == '\n' || c == '\r' {
            let (ni, na) = advance(chars, i, at);
            i = ni;
            at = na;
        } else if c == '/' && i + 1 < n && chars[i + 1] == '/' {
            // A line comment runs to the end of the line.
            let (ni, na) = advance(chars, i, at);
            i = ni;
            at = na;
            while i < n && chars[i] != '\n'
                invariant
                    n == chars@.len(),
                    i0 < i <= chars@.len(),
                    at == bytes_to(chars@, i as int),
                    comment_end(chars@, i0 + 1) == comment_end(chars@, i as int),
                decreases chars@.len() - i,
            {
                let (ni, na) = advance(chars, i, at);
                i = ni;
                at = na;
            }
        } else if is_ident_start(c) {
            let mut name = String::new();
            push_char(&mut name, c);
            let (ni, na) = advance(chars, i, at);
            i = ni;
            at = na;
            proof { assert(name@ =~= s.subrange(i0 as int, i as int)); }
            while i < n && is_ident_cont(chars[i])
                invariant
                    n == chars@.len(),
                    s == chars@,
                    i0 < i <= chars@.len(),
                    at == bytes_to(chars@, i as int),
                    ident_end(chars@, i0 + 1) == ident_end(chars@, i as int),
                    name@ == s.subrange(i0 as int, i as int),
                decreases chars@.len() - i,
            {
                push_char(&mut name, chars[i]);
                let (ni, na) = advance(chars, i, at);
                i = ni;
                at = na;
                proof { assert(name@ =~= s.subrange(i0 as int, i as int)); }
            }
            let ghost e = i as int;
            proof { reveal_strlit("case"); }
            // `case-insensitive` and `case-sensitive` are single words.
            if crate::text::str_eq(name.as_str(), "case") && i < n && chars[i] == '-' {
                let ins = word_at(chars, i + 1, "insensitive");
                let sen = word_at(chars, i + 1, "sensitive");
                proof {
                    reveal_strlit("insensitive");
                    reveal_strlit("sensitive");
                }
                if ins || sen {
                    let w = if ins { "-insensitive" } else { "-sensitive" };
                    let skip: usize = if ins { 12 } else { 10 };
                    proof {
                        reveal_strlit("-insensitive");
                        reveal_strlit("-sensitive");
                    }
                    name.append(w);
                    let mut k: usize = 0;
                    while k < skip && i < n
                        invariant
                            n == chars@.len(),
                            i0 < i <= chars@.len(),
                            at == bytes_to(chars@, i as int),
                            k <= skip,
                            i == e + k,
                            e + skip <= n,
                        decreases chars@.len() - i,
                    {
                        let (ni, na) = advance(chars, i, at);
                        i = ni;
                        at = na;
                        k = k + 1;
                    }
                }
            }
            proof {
                lemma_bytes_to_mono(chars@, i as int, chars@.len() as int);
                lemma_bytes_to_mono(chars@, i0 as int, i as int);
                next_acc = acc.push(LexTok { kind: TokKind::Ident, text: name@, start: i0 as int, end: i as int });
            }
            toks.push(Tok { kind: TokKind::Ident, text: name, lo: offset(start), hi: offset(at) });
        } else if c == '"' {
            let (ni, na) = advance(chars, i, at);
            proof { lemma_str_scan(chars@, ni as int, Seq::empty()); }
            let (res, k, ka) = scan_string(chars, ni, na);
            i = k;
            at = ka;
            match res {
                Ok(value) => {
                    proof {
                        lemma_bytes_to_mono(chars@, i as int, chars@.len() as int);
                        lemma_bytes_to_mono(chars@, i0 as int, i as int);
                        next_acc = acc.push(LexTok { kind: TokKind::Str, text: value@, start: i0 as int, end: i as int });
                    }
                    toks.push(Tok { kind: TokKind::Str, text: value, lo: offset(start), hi: offset(at) });
                },
                Err(esc) => {
                    proof {
                        reveal_strlit("unterminated `\\u{..}` escape");
                        reveal_strlit("unterminated string literal");
                        lemma_bytes_to_mono(chars@, i as int, chars@.len() as int);
                        assert(lex_step(s, i0 as int) == LexStep::Fail(
                            if esc {
                                LexFail::UnterminatedEscape
                            } else {
                                LexFail::UnterminatedString
                            },
                            i as int,
                        ));
                    }
                    let msg = if esc { "unterminated `\\u{..}` escape" } else { "unterminated string literal" };
                    return Err(diag_at(file, start, at, msg));
                },
            }
        } else {
            let two = if i + 1 < n { punct2(c, chars[i + 1]) } else { None };
            match two {
                Some(p) => {
                    let (ni, na) = advance(chars, i, at);
                    let (ni2, na2) = advance(chars, ni, na);
                    i = ni2;
                    at = na2;
                    proof {
                        reveal_strlit("::");
                        reveal_strlit("->");
                        reveal_strlit("..");
                        lemma_bytes_to_mono(chars@, i as int, chars@.len() as int);
                        lemma_bytes_to_mono(chars@, i0 as int, i as int);
                        next_acc = acc.push(LexTok { kind: TokKind::Punct, text: p@, start: i0 as int, end: i as int });
                    }
                    toks.push(Tok { kind: TokKind::Punct, text: owned(p), lo: offset(start), hi: offset(at) });
                },
                None => {
                    if punct1(c) {
                        let (ni, na) = advance(chars, i, at);
                        i = ni;
                        at = na;
                        let mut t = String::new();
                        push_char(&mut t, c);
                        proof {
                            lemma_bytes_to_mono(chars@, i as int, chars@.len() as int);
                            lemma_bytes_to_mono(chars@, i0 as int, i as int);
                            assert(t@ =~= seq![c]);
                            next_acc = acc.push(LexTok { kind: TokKind::Punct, text: t@, start: i0 as int, end: i as int });
                        }
                        toks.push(Tok { kind: TokKind::Punct, text: t, lo: offset(start), hi: offset(at) });
                    } else {
                        let (_ni, na) = advance(chars, i, at);
                        proof {
                            reveal_strlit("unexpected character");
                            lemma_bytes_to_mono(chars@, i + 1, chars@.len() as int);
                            assert(lex_step(s, i0 as int) == LexStep::Fail(LexFail::UnexpectedChar, i + 1));
                        }
                        return Err(diag_at(file, start, na, "unexpected character"));
                    }
                },
            }
        }
        proof {
            lemma_bytes_to_mono(chars@, i0 as int, i as int);
            assert(lex_from(s, i0 as int, acc) == lex_from(s, i as int, next_acc));
            acc = next_acc;
        }
    }
    Ok(toks)
}

} // verus!
