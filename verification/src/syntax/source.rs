//! Multi-file source tracking for `.nh` grammar files.
//!
//! Offsets are byte offsets into the UTF-8 encoding of a file's text, as a
//! parser reports them; columns count characters, so they stay meaningful in
//! text that is not ASCII.

use vstd::prelude::*;
use vstd::slice::slice_subrange;
use crate::text::{chars_of, decimal, decimal_string, owned, push_char, str_eq, string_of};

verus! {

/// Index of a file within a [`SourceMap`].
#[derive(Clone, Copy, PartialEq, Eq, Structural, PartialOrd, Ord, Hash, Debug)]
pub struct FileId(pub u32);

/// A byte range within a specific file.
#[derive(Clone, Copy, PartialEq, Eq, Structural, Debug)]
pub struct Span {
    pub file: FileId,
    pub lo: u32,
    pub hi: u32,
}

impl Span {
    pub fn new(file: FileId, lo: u32, hi: u32) -> (s: Span)
        ensures
            s == (Span { file, lo, hi }),
    {
        Span { file, lo, hi }
    }

    /// A zero-width span at the start of `file`, for diagnostics that concern a
    /// file as a whole rather than any position in it.
    pub fn whole_file(file: FileId) -> (s: Span)
        ensures
            s == (Span { file, lo: 0, hi: 0 }),
    {
        Span { file, lo: 0, hi: 0 }
    }

    /// The smallest span covering both.
    pub fn join(self, other: Span) -> (s: Span)
        ensures
            s.file == self.file,
            s.lo == if self.lo <= other.lo { self.lo } else { other.lo },
            s.hi == if self.hi >= other.hi { self.hi } else { other.hi },
    {
        Span {
            file: self.file,
            lo: if self.lo <= other.lo { self.lo } else { other.lo },
            hi: if self.hi >= other.hi { self.hi } else { other.hi },
        }
    }
}

/// Joining covers both operands, whichever way round it is done.
pub proof fn span_join_covers(a: Span, b: Span, j: Span)
    requires
        j.file == a.file,
        j.lo == if a.lo <= b.lo { a.lo } else { b.lo },
        j.hi == if a.hi >= b.hi { a.hi } else { b.hi },
    ensures
        j.lo <= a.lo && j.lo <= b.lo,
        j.hi >= a.hi && j.hi >= b.hi,
        j.lo == a.lo || j.lo == b.lo,
        j.hi == a.hi || j.hi == b.hi,
{
}

/// A value paired with the source location it came from.
#[derive(Clone, Debug)]
pub struct Spanned<T> {
    pub value: T,
    pub span: Span,
}

impl<T> Spanned<T> {
    pub fn new(value: T, span: Span) -> (s: Spanned<T>)
        ensures
            s.value == value,
            s.span == span,
    {
        Spanned { value, span }
    }
}

/// One-based line and column, for display.
#[derive(Clone, Copy, PartialEq, Eq, Structural, Debug)]
pub struct LineCol {
    pub line: u32,
    pub col: u32,
}

// ---------------------------------------------------------------------------
// Byte offsets over characters
// ---------------------------------------------------------------------------

/// Bytes in the UTF-8 encoding of `c`.
pub open spec fn utf8_len(c: char) -> nat {
    if (c as u32) < 0x80 {
        1
    } else if (c as u32) < 0x800 {
        2
    } else if (c as u32) < 0x10000 {
        3
    } else {
        4
    }
}

pub fn char_utf8_len(c: char) -> (n: u64)
    ensures
        n == utf8_len(c),
{
    let u = c as u32;
    if u < 0x80 {
        1
    } else if u < 0x800 {
        2
    } else if u < 0x10000 {
        3
    } else {
        4
    }
}

/// How many characters of `s` start before byte offset `b`.
///
/// On a character boundary this is the index of the character starting
/// there; past the end it is the whole text.
pub open spec fn chars_before(s: Seq<char>, b: int) -> nat
    decreases s.len(),
{
    if s.len() == 0 || b <= 0 {
        0
    } else {
        1 + chars_before(s.drop_first(), b - utf8_len(s[0]))
    }
}

/// Newline characters in `s`.
pub open spec fn newlines(s: Seq<char>) -> nat
    decreases s.len(),
{
    if s.len() == 0 {
        0
    } else {
        newlines(s.drop_last()) + if s.last() == '\n' { 1nat } else { 0nat }
    }
}

/// Index just past the last newline in `s` (0 when there is none): where the
/// line containing the end of `s` begins.
pub open spec fn line_start(s: Seq<char>) -> nat
    decreases s.len(),
{
    if s.len() == 0 {
        0
    } else if s.last() == '\n' {
        s.len()
    } else {
        line_start(s.drop_last())
    }
}

/// Index of the first newline at or after `from`, or `s.len()`.
pub open spec fn next_newline(s: Seq<char>, from: int) -> int
    decreases s.len() - from,
{
    if from >= s.len() || from < 0 {
        s.len() as int
    } else if s[from] == '\n' {
        from
    } else {
        next_newline(s, from + 1)
    }
}

/// `s` without any trailing `'\n'` or `'\r'` characters.
pub open spec fn trim_newlines(s: Seq<char>) -> Seq<char>
    decreases s.len(),
{
    if s.len() > 0 && (s.last() == '\n' || s.last() == '\r') {
        trim_newlines(s.drop_last())
    } else {
        s
    }
}

/// The line, without its terminator, containing character index `k`.
pub open spec fn line_containing(s: Seq<char>, k: int) -> Seq<char> {
    let start = line_start(s.take(k)) as int;
    trim_newlines(s.subrange(start, next_newline(s, start)))
}

/// The one-based line and column of byte offset `b`.
pub open spec fn line_col_of(s: Seq<char>, b: int) -> LineCol {
    let k = chars_before(s, b) as int;
    let prefix = s.take(k);
    LineCol {
        line: (newlines(prefix) + 1) as u32,
        col: (k - line_start(prefix) + 1) as u32,
    }
}

pub proof fn lemma_chars_before_bound(s: Seq<char>, b: int)
    ensures
        chars_before(s, b) <= s.len(),
    decreases s.len(),
{
    if s.len() > 0 && b > 0 {
        lemma_chars_before_bound(s.drop_first(), b - utf8_len(s[0]));
    }
}

proof fn lemma_newlines_bound(s: Seq<char>)
    ensures
        newlines(s) <= s.len(),
    decreases s.len(),
{
    if s.len() > 0 {
        lemma_newlines_bound(s.drop_last());
    }
}

proof fn lemma_line_start_bound(s: Seq<char>)
    ensures
        line_start(s) <= s.len(),
    decreases s.len(),
{
    if s.len() > 0 {
        lemma_line_start_bound(s.drop_last());
    }
}

/// Character index of byte offset `b` in `s`.
fn char_index(s: &Vec<char>, b: u32) -> (k: usize)
    ensures
        k == chars_before(s@, b as int),
{
    let mut k: usize = 0;
    let mut at: u64 = 0;
    assert(s@.skip(0) =~= s@);
    while k < s.len() && at < b as u64
        invariant
            k <= s@.len(),
            at <= b,
            chars_before(s@, b as int) == k + chars_before(s@.skip(k as int), b - at),
        decreases s@.len() - k,
    {
        let ghost rest = s@.skip(k as int);
        assert(rest.drop_first() == s@.skip(k + 1));
        let w = char_utf8_len(s[k]);
        at = at + w;
        k = k + 1;
        if at > b as u64 {
            assert(chars_before(s@.skip(k as int), b - at) == 0);
            at = b as u64;
            assert(chars_before(s@.skip(k as int), 0) == 0);
        }
    }
    proof {
        if k < s@.len() {
            assert(chars_before(s@.skip(k as int), b - at) == 0);
        } else {
            assert(s@.skip(k as int).len() == 0);
        }
    }
    k
}

struct SourceFile {
    path: String,
    text: String,
    chars: Vec<char>,
}

/// Interned set of source files.
pub struct SourceMap {
    files: Vec<SourceFile>,
}

impl View for SourceMap {
    /// `(path, text)` of each file, by id.
    type V = Seq<(Seq<char>, Seq<char>)>;

    closed spec fn view(&self) -> Seq<(Seq<char>, Seq<char>)> {
        self.files@.map_values(|f: SourceFile| (f.path@, f.text@))
    }
}

impl SourceMap {
    #[verifier::type_invariant]
    closed spec fn wf(self) -> bool {
        &&& forall|i: int| 0 <= i < self.files@.len() ==> #[trigger] self.files@[i].chars@ == self.files@[i].text@
        &&& self.files@.len() <= u32::MAX
    }

    /// Whether `file` names a file of this map.
    pub open spec fn has(&self, file: FileId) -> bool {
        (file.0 as int) < self@.len()
    }

    pub open spec fn text_of(&self, file: FileId) -> Seq<char> {
        self@[file.0 as int].1
    }

    /// The text a span covers, clamped to the file.
    pub open spec fn span_text(&self, span: Span) -> Seq<char> {
        let t = self.text_of(span.file);
        let lo = chars_before(t, span.lo as int) as int;
        let hi = chars_before(t, span.hi as int) as int;
        if lo <= hi {
            t.subrange(lo, hi)
        } else {
            Seq::empty()
        }
    }

    pub open spec fn path_of(&self, file: FileId) -> Seq<char> {
        self@[file.0 as int].0
    }

    pub fn new() -> (sm: SourceMap)
        ensures
            sm@ == Seq::<(Seq<char>, Seq<char>)>::empty(),
    {
        let sm = SourceMap { files: Vec::new() };
        assert(sm@ =~= Seq::<(Seq<char>, Seq<char>)>::empty());
        sm
    }

    /// Adds a file and returns its id, the next free one.
    pub fn add(&mut self, path: &str, text: &str) -> (id: FileId)
        requires
            old(self)@.len() < u32::MAX,
        ensures
            id.0 == old(self)@.len(),
            final(self)@ == old(self)@.push((path@, text@)),
    {
        proof { use_type_invariant(&*self); }
        let id = FileId(self.files.len() as u32);
        let f = SourceFile { path: owned(path), text: owned(text), chars: chars_of(text) };
        let mut files: Vec<SourceFile> = Vec::new();
        std::mem::swap(&mut files, &mut self.files);
        files.push(f);
        std::mem::swap(&mut files, &mut self.files);
        assert(self@ =~= old(self)@.push((path@, text@)));
        id
    }

    /// Whether `file` names a file of this map.
    pub fn has_file(&self, file: FileId) -> (b: bool)
        ensures
            b == self.has(file),
    {
        (file.0 as usize) < self.files.len()
    }

    /// The number of files added so far.
    pub fn len(&self) -> (n: usize)
        ensures
            n == self@.len(),
    {
        self.files.len()
    }

    /// Returns the id of an already-added file with this path, if any.
    ///
    /// Import resolution uses this for diamond dedup: the same file reached by
    /// two import paths is loaded once, and is not a duplicate definition.
    pub fn find_by_path(&self, path: &str) -> (r: Option<FileId>)
        ensures
            match r {
                Some(id) => (id.0 as int) < self@.len() && self@[id.0 as int].0 == path@
                    && forall|j: int| 0 <= j < id.0 ==> self@[j].0 != path@,
                None => forall|j: int| 0 <= j < self@.len() ==> self@[j].0 != path@,
            },
    {
        proof { use_type_invariant(self); }
        let mut i: usize = 0;
        while i < self.files.len()
            invariant
                i <= self.files@.len(),
                self.files@.len() <= u32::MAX,
                forall|j: int| 0 <= j < i ==> self@[j].0 != path@,
            decreases self.files@.len() - i,
        {
            if str_eq(self.files[i].path.as_str(), path) {
                return Some(FileId(i as u32));
            }
            i = i + 1;
        }
        None
    }

    pub fn path(&self, file: FileId) -> (p: &str)
        requires
            self.has(file),
        ensures
            p@ == self.path_of(file),
    {
        self.files[file.0 as usize].path.as_str()
    }

    pub fn text(&self, file: FileId) -> (t: &str)
        requires
            self.has(file),
        ensures
            t@ == self.text_of(file),
    {
        self.files[file.0 as usize].text.as_str()
    }

    /// The text a span covers, clamped to the file.
    pub fn snippet(&self, span: Span) -> (s: String)
        requires
            self.has(span.file),
        ensures
            s@ == ({
                let t = self.text_of(span.file);
                let lo = chars_before(t, span.lo as int) as int;
                let hi = chars_before(t, span.hi as int) as int;
                if lo <= hi { t.subrange(lo, hi) } else { Seq::empty() }
            }),
    {
        proof { use_type_invariant(self); }
        let f = &self.files[span.file.0 as usize];
        let lo = char_index(&f.chars, span.lo);
        let hi = char_index(&f.chars, span.hi);
        proof {
            lemma_chars_before_bound(f.chars@, span.lo as int);
            lemma_chars_before_bound(f.chars@, span.hi as int);
        }
        if lo <= hi {
            string_of(slice_subrange(f.chars.as_slice(), lo, hi))
        } else {
            String::new()
        }
    }

    pub fn line_col(&self, span: Span) -> (lc: LineCol)
        requires
            self.has(span.file),
        ensures
            lc == line_col_of(self.text_of(span.file), span.lo as int),
    {
        proof { use_type_invariant(self); }
        let f = &self.files[span.file.0 as usize];
        let k = char_index(&f.chars, span.lo);
        proof { lemma_chars_before_bound(f.chars@, span.lo as int); }
        let mut i: usize = 0;
        let mut lines: u64 = 0;
        let mut start: usize = 0;
        while i < k
            invariant
                k <= f.chars@.len(),
                i <= k,
                lines == newlines(f.chars@.take(i as int)),
                start == line_start(f.chars@.take(i as int)),
                lines <= i,
            decreases k - i,
        {
            assert(f.chars@.take(i + 1).drop_last() == f.chars@.take(i as int));
            if f.chars[i] == '\n' {
                lines = lines + 1;
                start = i + 1;
            }
            i = i + 1;
        }
        proof { lemma_line_start_bound(f.chars@.take(k as int)); }
        LineCol { line: (lines as u128 + 1) as u32, col: ((k - start) as u128 + 1) as u32 }
    }

    /// The text of the line a span starts on, without its terminator.
    pub fn line_text(&self, span: Span) -> (s: String)
        requires
            self.has(span.file),
        ensures
            s@ == line_containing(self.text_of(span.file), chars_before(self.text_of(span.file), span.lo as int) as int),
    {
        proof { use_type_invariant(self); }
        let f = &self.files[span.file.0 as usize];
        let k = char_index(&f.chars, span.lo);
        proof { lemma_chars_before_bound(f.chars@, span.lo as int); }
        let ghost s = f.chars@;
        // Where the line begins.
        let mut i: usize = 0;
        let mut start: usize = 0;
        while i < k
            invariant
                k <= s.len(),
                s == f.chars@,
                i <= k,
                start == line_start(s.take(i as int)),
                start <= i,
            decreases k - i,
        {
            assert(s.take(i + 1).drop_last() == s.take(i as int));
            if f.chars[i] == '\n' {
                start = i + 1;
            }
            i = i + 1;
        }
        // Where it ends: the first newline from `start`.
        let mut end: usize = start;
        while end < f.chars.len() && f.chars[end] != '\n'
            invariant
                start <= end <= s.len(),
                s == f.chars@,
                next_newline(s, start as int) == next_newline(s, end as int),
            decreases s.len() - end,
        {
            end = end + 1;
        }
        // Trim trailing terminators.
        let mut stop: usize = end;
        while stop > start && (f.chars[stop - 1] == '\n' || f.chars[stop - 1] == '\r')
            invariant
                start <= stop <= end <= s.len(),
                s == f.chars@,
                trim_newlines(s.subrange(start as int, end as int)) == trim_newlines(s.subrange(start as int, stop as int)),
            decreases stop,
        {
            assert(s.subrange(start as int, stop as int).drop_last() == s.subrange(start as int, stop - 1));
            stop = stop - 1;
        }
        proof {
            let t = s.subrange(start as int, stop as int);
            if t.len() > 0 {
                assert(t.last() == s[stop - 1]);
            }
        }
        string_of(slice_subrange(f.chars.as_slice(), start, stop))
    }

    /// `path:line:col`, the clickable form.
    pub fn location(&self, span: Span) -> (s: String)
        requires
            self.has(span.file),
        ensures
            s@ == self.path_of(span.file) + seq![':'] + decimal(line_col_of(self.text_of(span.file), span.lo as int).line as nat)
                + seq![':'] + decimal(line_col_of(self.text_of(span.file), span.lo as int).col as nat),
    {
        let lc = self.line_col(span);
        let mut s = owned(self.path(span.file));
        push_char(&mut s, ':');
        s.append(decimal_string(lc.line as u64).as_str());
        push_char(&mut s, ':');
        s.append(decimal_string(lc.col as u64).as_str());
        s
    }
}

} // verus!
