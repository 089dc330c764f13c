//! Diagnostics for grammar files, rendered in the rustc style.

use vstd::prelude::*;
use crate::syntax::source::{chars_before, line_col_of, line_containing, SourceMap, Span};
use crate::text::{chars_of, decimal, decimal_string, owned, push_char, push_repeat, repeat_char};

verus! {

#[derive(Clone, Copy, PartialEq, Eq, Structural, Debug)]
pub enum Severity {
    Error,
    Warning,
}

impl Severity {
    pub open spec fn label_spec(self) -> Seq<char> {
        match self {
            Severity::Error => "error"@,
            Severity::Warning => "warning"@,
        }
    }

    pub fn label(self) -> (s: &'static str)
        ensures
            s@ == self.label_spec(),
    {
        match self {
            Severity::Error => "error",
            Severity::Warning => "warning",
        }
    }
}

/// A secondary location attached to a diagnostic, such as "first defined here".
#[derive(Clone, Debug)]
pub struct Note {
    pub message: String,
    pub span: Option<Span>,
}

#[derive(Clone, Debug)]
pub struct Diagnostic {
    pub severity: Severity,
    pub message: String,
    pub span: Option<Span>,
    pub notes: Vec<Note>,
    /// Rendered after the notes, prefixed with `help:`.
    pub help: Option<String>,
    /// The lint that produced this, when one did.
    pub code: Option<String>,
}

pub open spec fn opt_str(o: Option<String>) -> Option<Seq<char>> {
    match o {
        Some(s) => Some(s@),
        None => None,
    }
}

impl Diagnostic {
    pub fn error(message: &str) -> (d: Diagnostic)
        ensures
            d.severity == Severity::Error,
            d.message@ == message@,
            d.span is None,
            d.notes@.len() == 0,
            d.help is None,
            d.code is None,
    {
        Diagnostic {
            severity: Severity::Error,
            message: owned(message),
            span: None,
            notes: Vec::new(),
            help: None,
            code: None,
        }
    }

    pub fn warning(message: &str) -> (d: Diagnostic)
        ensures
            d.severity == Severity::Warning,
            d.message@ == message@,
            d.span is None,
            d.notes@.len() == 0,
            d.help is None,
            d.code is None,
    {
        Diagnostic {
            severity: Severity::Warning,
            message: owned(message),
            span: None,
            notes: Vec::new(),
            help: None,
            code: None,
        }
    }

    pub fn at(self, span: Span) -> (d: Diagnostic)
        ensures
            d.span == Some(span),
            d.severity == self.severity,
            d.message == self.message,
            d.notes == self.notes,
            d.help == self.help,
            d.code == self.code,
    {
        let mut d = self;
        d.span = Some(span);
        d
    }

    pub fn note(self, message: &str, span: Option<Span>) -> (d: Diagnostic)
        ensures
            d.notes@.len() == self.notes@.len() + 1,
            forall|i: int| 0 <= i < self.notes@.len() ==> d.notes@[i] == self.notes@[i],
            d.notes@.last().message@ == message@,
            d.notes@.last().span == span,
            d.severity == self.severity,
            d.message == self.message,
            d.span == self.span,
            d.help == self.help,
            d.code == self.code,
    {
        let mut d = self;
        d.notes.push(Note { message: owned(message), span });
        d
    }

    pub fn help(self, message: &str) -> (d: Diagnostic)
        ensures
            opt_str(d.help) == Some(message@),
            d.severity == self.severity,
            d.message == self.message,
            d.span == self.span,
            d.notes == self.notes,
            d.code == self.code,
    {
        let mut d = self;
        d.help = Some(owned(message));
        d
    }

    /// Tags this with the lint that produced it.
    pub fn code(self, code: &str) -> (d: Diagnostic)
        ensures
            opt_str(d.code) == Some(code@),
            d.severity == self.severity,
            d.message == self.message,
            d.span == self.span,
            d.notes == self.notes,
            d.help == self.help,
    {
        let mut d = self;
        d.code = Some(owned(code));
        d
    }

    pub open spec fn render_spec(&self, sm: &SourceMap) -> Seq<char> {
        let head = self.severity.label_spec() + ": "@ + self.message@ + seq!['\n'];
        let main = match self.span {
            Some(s) => snippet_spec(sm, s),
            None => Seq::empty(),
        };
        let help = match self.help {
            Some(h) => "help: "@ + h@ + seq!['\n'],
            None => Seq::empty(),
        };
        head + main + notes_spec(sm, self.notes@) + help
    }

    /// Renders in the rustc style: message, location, source line, caret.
    ///
    /// A span naming a file this map does not hold contributes no snippet.
    pub fn render(&self, sm: &SourceMap) -> (out: String)
        ensures
            out@ == self.render_spec(sm),
    {
        let mut out = String::new();
        out.append(self.severity.label());
        out.append(": ");
        out.append(self.message.as_str());
        push_char(&mut out, '\n');
        match self.span {
            Some(span) => render_snippet(&mut out, sm, span),
            None => {},
        }
        let ghost before = out@;
        let mut i: usize = 0;
        while i < self.notes.len()
            invariant
                i <= self.notes@.len(),
                out@ == before + notes_spec(sm, self.notes@.take(i as int)),
            decreases self.notes@.len() - i,
        {
            let note = &self.notes[i];
            out.append("note: ");
            out.append(note.message.as_str());
            push_char(&mut out, '\n');
            match note.span {
                Some(span) => render_snippet(&mut out, sm, span),
                None => {},
            }
            i = i + 1;
            assert(self.notes@.take(i as int).drop_last() == self.notes@.take((i - 1) as int));
        }
        assert(self.notes@.take(self.notes@.len() as int) == self.notes@);
        match &self.help {
            Some(h) => {
                out.append("help: ");
                out.append(h.as_str());
                push_char(&mut out, '\n');
            },
            None => {},
        }
        out
    }
}

/// The notes, each with its snippet when it has a span.
pub open spec fn notes_spec(sm: &SourceMap, notes: Seq<Note>) -> Seq<char>
    decreases notes.len(),
{
    if notes.len() == 0 {
        Seq::empty()
    } else {
        let n = notes.last();
        notes_spec(sm, notes.drop_last()) + "note: "@ + n.message@ + seq!['\n'] + match n.span {
            Some(s) => snippet_spec(sm, s),
            None => Seq::empty(),
        }
    }
}

/// Characters before the first newline of `s`.
pub open spec fn first_line_len(s: Seq<char>) -> nat
    decreases s.len(),
{
    if s.len() == 0 || s[0] == '\n' {
        0
    } else {
        1 + first_line_len(s.drop_first())
    }
}

pub open spec fn sat_sub(a: int, b: int) -> int {
    if a > b { a - b } else { 0 }
}

/// `v` clamped into `lo..=hi` (with `lo <= hi`).
pub open spec fn clamp(v: int, lo: int, hi: int) -> int {
    if v < lo { lo } else if v > hi { hi } else { v }
}

/// The located part of a diagnostic: arrow, gutter, source line, carets;
/// nothing when the span's file is not in `sm`.
pub open spec fn snippet_spec(sm: &SourceMap, span: Span) -> Seq<char> {
    if !sm.has(span.file) { Seq::empty() } else {
    let t = sm.text_of(span.file);
    let lc = line_col_of(t, span.lo as int);
    let line = line_containing(t, chars_before(t, span.lo as int) as int);
    let num = decimal(lc.line as nat);
    let pad = repeat_char(' ', num.len());
    let caret_col = sat_sub(lc.col as int, 1);
    let visible = sat_sub(line.len() as int, caret_col);
    let lo = chars_before(t, span.lo as int) as int;
    let hi = chars_before(t, span.hi as int) as int;
    let covered = if lo <= hi { t.subrange(lo, hi) } else { Seq::empty() };
    let width = clamp(first_line_len(covered) as int, 1, if visible > 1 { visible } else { 1 });
    pad + "--> "@ + sm.path_of(span.file) + seq![':'] + num + seq![':'] + decimal(lc.col as nat) + seq!['\n']
        + pad + " |"@ + seq!['\n']
        + num + " | "@ + line + seq!['\n']
        + pad + " | "@ + repeat_char(' ', caret_col as nat) + repeat_char('^', width as nat) + seq!['\n']
    }
}

proof fn lemma_first_line_len_bound(s: Seq<char>)
    ensures
        first_line_len(s) <= s.len(),
    decreases s.len(),
{
    if s.len() > 0 && s[0] != '\n' {
        lemma_first_line_len_bound(s.drop_first());
    }
}

fn first_line_count(v: &Vec<char>) -> (n: usize)
    ensures
        n == first_line_len(v@),
{
    let mut first: usize = 0;
    assert(v@.skip(0) =~= v@);
    while first < v.len() && v[first] != '\n'
        invariant
            first <= v@.len(),
            first_line_len(v@) == first + first_line_len(v@.skip(first as int)),
        decreases v@.len() - first,
    {
        assert(v@.skip(first as int).drop_first() == v@.skip(first + 1));
        first = first + 1;
    }
    proof {
        if first < v@.len() {
            assert(v@.skip(first as int)[0] == v@[first as int]);
        }
    }
    first
}

#[verifier::rlimit(80)]
#[verifier::spinoff_prover]
pub(crate) fn render_snippet(out: &mut String, sm: &SourceMap, span: Span)
    ensures
        final(out)@ == old(out)@ + snippet_spec(sm, span),
{
    if !sm.has_file(span.file) {
        return;
    }
    let ghost t = sm.text_of(span.file);
    let lc = sm.line_col(span);
    let line_text = sm.line_text(span);
    let num = decimal_string(lc.line as u64);
    let gutter = chars_of(num.as_str()).len();
    push_repeat(out, ' ', gutter);
    out.append("--> ");
    out.append(sm.location(span).as_str());
    push_char(out, '\n');
    push_repeat(out, ' ', gutter);
    out.append(" |");
    push_char(out, '\n');
    out.append(num.as_str());
    out.append(" | ");
    out.append(line_text.as_str());
    push_char(out, '\n');
    let caret_col: usize = if lc.col >= 1 { (lc.col - 1) as usize } else { 0 };
    let line_len = chars_of(line_text.as_str()).len();
    let visible: usize = if line_len > caret_col { line_len - caret_col } else { 0 };
    let snip = chars_of(sm.snippet(span).as_str());
    let first = first_line_count(&snip);
    let hi: usize = if visible > 1 { visible } else { 1 };
    let width: usize = if first < 1 { 1 } else if first > hi { hi } else { first };
    push_repeat(out, ' ', gutter);
    out.append(" | ");
    push_repeat(out, ' ', caret_col);
    push_repeat(out, '^', width);
    push_char(out, '\n');
}

/// One or more diagnostics. Import resolution collects several before giving
/// up, so a run reports every duplicate rather than only the first.
#[derive(Debug)]
pub struct Errors(pub Vec<Diagnostic>);

/// Renders joined by blank separators: `d0 + "\n" + d1 + ...`.
pub open spec fn join_renders(sm: &SourceMap, ds: Seq<Diagnostic>) -> Seq<char>
    decreases ds.len(),
{
    if ds.len() == 0 {
        Seq::empty()
    } else if ds.len() == 1 {
        ds[0].render_spec(sm)
    } else {
        join_renders(sm, ds.drop_last()) + seq!['\n'] + ds.last().render_spec(sm)
    }
}

impl Errors {
    pub fn single(d: Diagnostic) -> (e: Errors)
        ensures
            e.0@ == seq![d],
    {
        let mut v = Vec::new();
        v.push(d);
        Errors(v)
    }

    pub fn render(&self, sm: &SourceMap) -> (out: String)
        ensures
            out@ == join_renders(sm, self.0@),
    {
        let mut out = String::new();
        let mut i: usize = 0;
        while i < self.0.len()
            invariant
                i <= self.0@.len(),
                out@ == join_renders(sm, self.0@.take(i as int)),
            decreases self.0@.len() - i,
        {
            if i > 0 {
                push_char(&mut out, '\n');
            }
            let r = self.0[i].render(sm);
            out.append(r.as_str());
            i = i + 1;
            assert(self.0@.take(i as int).drop_last() == self.0@.take((i - 1) as int));
        }
        assert(self.0@.take(self.0@.len() as int) == self.0@);
        out
    }

    pub fn is_empty(&self) -> (b: bool)
        ensures
            b == (self.0@.len() == 0),
    {
        self.0.len() == 0
    }
}

} // verus!
