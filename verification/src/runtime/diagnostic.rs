//! Diagnostics for target programs, rendered in the rustc style.

use vstd::prelude::*;
use crate::runtime::source::{SourceMap, Span};
use crate::syntax::error::{notes_spec, render_snippet, snippet_spec};
use crate::text::{owned, push_char};

pub use crate::syntax::error::{Note, Severity};

verus! {

#[derive(Clone, Debug)]
pub struct Diagnostic {
    pub severity: Severity,
    pub message: String,
    pub span: Option<Span>,
    pub notes: Vec<Note>,
    pub help: Option<String>,
}

pub open spec fn opt_view(o: Option<String>) -> Option<Seq<char>> {
    match o {
        Some(s) => Some(s@),
        None => None,
    }
}

impl Diagnostic {
    pub fn error(message: &str) -> (d: Diagnostic)
        ensures
            d.severity == Severity::Error,
            d.message@ == message@,
            d.span is None,
            d.notes@.len() == 0,
            d.help is None,
    {
        Diagnostic { severity: Severity::Error, message: owned(message), span: None, notes: Vec::new(), help: None }
    }

    pub fn warning(message: &str) -> (d: Diagnostic)
        ensures
            d.severity == Severity::Warning,
            d.message@ == message@,
            d.span is None,
            d.notes@.len() == 0,
            d.help is None,
    {
        Diagnostic { severity: Severity::Warning, message: owned(message), span: None, notes: Vec::new(), help: None }
    }

    pub fn at(self, span: Span) -> (d: Diagnostic)
        ensures
            d.span == Some(span),
            d.severity == self.severity,
            d.message == self.message,
            d.notes == self.notes,
            d.help == self.help,
    {
        let mut d = self;
        d.span = Some(span);
        d
    }

    /// Sets the span only if none is attached: an explicitly located
    /// diagnostic is never moved by the ambient span stack.
    pub fn or_at(self, span: Option<Span>) -> (d: Diagnostic)
        ensures
            d.span == if self.span is Some { self.span } else { span },
            d.severity == self.severity,
            d.message == self.message,
            d.notes == self.notes,
            d.help == self.help,
    {
        let mut d = self;
        if d.span.is_none() {
            d.span = span;
        }
        d
    }

    pub fn note(self, message: &str, span: Option<Span>) -> (d: Diagnostic)
        ensures
            d.notes@.len() == self.notes@.len() + 1,
            forall|i: int| 0 <= i < self.notes@.len() ==> d.notes@[i] == self.notes@[i],
            d.notes@.last().message@ == message@,
            d.notes@.last().span == span,
            d.severity == self.severity,
            d.message == self.message,
            d.span == self.span,
            d.help == self.help,
    {
        let mut d = self;
        d.notes.push(Note { message: owned(message), span });
        d
    }

    pub fn help(self, message: &str) -> (d: Diagnostic)
        ensures
            opt_view(d.help) == Some(message@),
            d.severity == self.severity,
            d.message == self.message,
            d.span == self.span,
            d.notes == self.notes,
    {
        let mut d = self;
        d.help = Some(owned(message));
        d
    }

    pub open spec fn render_spec(&self, sm: &SourceMap) -> Seq<char> {
        let head = self.severity.label_spec() + ": "@ + self.message@ + seq!['\n'];
        let main = match self.span {
            Some(s) => snippet_spec(sm, s),
            None => Seq::empty(),
        };
        let help = match self.help {
            Some(h) => "help: "@ + h@ + seq!['\n'],
            None => Seq::empty(),
        };
        head + main + notes_spec(sm, self.notes@) + help
    }

    /// Renders in the rustc style: message, location, source line, caret,
    /// then notes and help.
    pub fn render(&self, sm: &SourceMap) -> (out: String)
        ensures
            out@ == self.render_spec(sm),
    {
        let mut out = String::new();
        out.append(self.severity.label());
        out.append(": ");
        out.append(self.message.as_str());
        push_char(&mut out, '\n');
        match self.span {
            Some(span) => render_snippet(&mut out, sm, span),
            None => {},
        }
        let ghost before = out@;
        let mut i: usize = 0;
        while i < self.notes.len()
            invariant
                i <= self.notes@.len(),
                out@ == before + notes_spec(sm, self.notes@.take(i as int)),
            decreases self.notes@.len() - i,
        {
            let note = &self.notes[i];
            out.append("note: ");
            out.append(note.message.as_str());
            push_char(&mut out, '\n');
            match note.span {
                Some(span) => render_snippet(&mut out, sm, span),
                None => {},
            }
            i = i + 1;
            assert(self.notes@.take(i as int).drop_last() == self.notes@.take((i - 1) as int));
        }
        assert(self.notes@.take(self.notes@.len() as int) == self.notes@);
        match &self.help {
            Some(h) => {
                out.append("help: ");
                out.append(h.as_str());
                push_char(&mut out, '\n');
            },
            None => {},
        }
        out
    }
}

/// `or_at` never moves a located diagnostic, and locates an unlocated one
/// exactly where it is told.
pub proof fn or_at_keeps_an_explicit_span(d: Diagnostic, span: Option<Span>, r: Diagnostic)
    requires
        r.span == if d.span is Some { d.span } else { span },
    ensures
        d.span is Some ==> r.span == d.span,
        d.span is None ==> r.span == span,
{
}

} // verus!
