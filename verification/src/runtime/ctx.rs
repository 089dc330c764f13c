//! The evaluation context: sources, spans, and diagnostics.
//!
//! `Ctx` keeps a span stack, so an error raised anywhere inside a handler is
//! tagged with the innermost node's location automatically: no handler
//! threads spans by hand.

use vstd::prelude::*;
use crate::codegen::drift::joined;
use crate::runtime::diagnostic::{Diagnostic, Severity};
use crate::runtime::error::Error;
use crate::runtime::source::{SourceMap, Span};
use crate::text::{cat3, owned};

verus! {

pub struct Ctx {
    sources: SourceMap,
    /// Innermost last. Pushed on entry to each dispatched node.
    spans: Vec<Span>,
    diagnostics: Vec<Diagnostic>,
}

/// The innermost span of a stack, if any.
/// An error with `message` rendered as a diagnostic: the heading, then the
/// location and source line when there is a span.
pub open spec fn error_text(sm: SourceMap, message: Seq<char>, span: Option<Span>) -> Seq<char> {
    "error"@ + ": "@ + message + seq!['\n'] + match span {
        Some(s) => crate::syntax::error::snippet_spec(&sm, s),
        None => Seq::empty(),
    }
}

/// The stack after popping its innermost span, if any.
pub open spec fn popped(spans: Seq<Span>) -> Seq<Span> {
    if spans.len() == 0 {
        spans
    } else {
        spans.drop_last()
    }
}

pub open spec fn top(spans: Seq<Span>) -> Option<Span> {
    if spans.len() == 0 {
        None
    } else {
        Some(spans.last())
    }
}

impl Ctx {
    pub closed spec fn sources_spec(&self) -> SourceMap {
        self.sources
    }

    /// The span stack, innermost last.
    pub closed spec fn spans_spec(&self) -> Seq<Span> {
        self.spans@
    }

    pub closed spec fn diagnostics_spec(&self) -> Seq<Diagnostic> {
        self.diagnostics@
    }

    pub fn new(sources: SourceMap) -> (cx: Ctx)
        ensures
            cx.sources_spec() == sources,
            cx.spans_spec().len() == 0,
            cx.diagnostics_spec().len() == 0,
    {
        Ctx { sources, spans: Vec::new(), diagnostics: Vec::new() }
    }

    pub fn sources(&self) -> (sm: &SourceMap)
        ensures
            *sm == self.sources_spec(),
    {
        &self.sources
    }

    /// The sources, for adding files while evaluating.
    pub fn sources_mut(&mut self) -> (sm: &mut SourceMap)
        ensures
            *sm == old(self).sources_spec(),
            final(self).sources_spec() == *final(sm),
            final(self).spans_spec() == old(self).spans_spec(),
            final(self).diagnostics_spec() == old(self).diagnostics_spec(),
    {
        &mut self.sources
    }

    /// The innermost span currently being evaluated.
    pub fn span(&self) -> (s: Option<Span>)
        ensures
            s == top(self.spans_spec()),
    {
        if self.spans.len() == 0 {
            None
        } else {
            Some(self.spans[self.spans.len() - 1])
        }
    }

    pub fn enter(&mut self, span: Span)
        ensures
            final(self).spans_spec() == old(self).spans_spec().push(span),
            final(self).sources_spec() == old(self).sources_spec(),
            final(self).diagnostics_spec() == old(self).diagnostics_spec(),
    {
        self.spans.push(span);
    }

    /// Pops the innermost span; nothing when the stack is empty.
    pub fn leave(&mut self)
        ensures
            final(self).spans_spec() == if old(self).spans_spec().len() == 0 {
                old(self).spans_spec()
            } else {
                old(self).spans_spec().drop_last()
            },
            final(self).sources_spec() == old(self).sources_spec(),
            final(self).diagnostics_spec() == old(self).diagnostics_spec(),
    {
        if self.spans.len() > 0 {
            self.spans.pop();
        }
    }

    /// Runs `f` with `span` as the innermost location, then pops it, also
    /// when `f` returns an error.
    pub fn scoped<T, F: FnOnce(&mut Ctx) -> T>(&mut self, span: Span, f: F) -> (out: T)
        requires
            forall|c: &mut Ctx| #[trigger] f.requires((c,)),
        ensures
            exists|c: &mut Ctx|
                #![trigger f.ensures((c,), out)]
                (*c).spans_spec() == old(self).spans_spec().push(span) && (*c).sources_spec() == old(
                    self,
                ).sources_spec() && (*c).diagnostics_spec() == old(self).diagnostics_spec() && f.ensures(
                    (c,),
                    out,
                ) && final(self).spans_spec() == popped(final(c).spans_spec()) && final(self).sources_spec()
                    == final(c).sources_spec() && final(self).diagnostics_spec() == final(c).diagnostics_spec(),
    {
        self.enter(span);
        let out = f(self);
        self.leave();
        out
    }

    /// The source text of the node being evaluated; empty outside any.
    pub fn text(&self) -> (s: String)
        requires
            self.span_file_known(),
        ensures
            top(self.spans_spec()) is None ==> s@.len() == 0,
            top(self.spans_spec()) matches Some(sp) ==> s@ == self.sources_spec().span_text(sp),
    {
        match self.span() {
            Some(s) => self.sources.snippet(s),
            None => String::new(),
        }
    }

    /// Whether the innermost span, if any, names a file of the sources.
    pub open spec fn span_file_known(&self) -> bool {
        top(self.spans_spec()) matches Some(s) ==> self.sources_spec().has(s.file)
    }

    /// An error located at the current span.
    pub fn error(&self, message: &str) -> (e: Error)
        ensures
            e matches Error::Runtime { message: m, span } && m@ == message@ && span == top(self.spans_spec()),
    {
        Error::Runtime { message: owned(message), span: self.span() }
    }

    /// Raises an error at the current span.
    pub fn err<T>(&mut self, message: &str) -> (r: Result<T, Error>)
        ensures
            r matches Err(Error::Runtime { message: m, span }) && m@ == message@ && span == top(
                old(self).spans_spec(),
            ),
            final(self).spans_spec() == old(self).spans_spec(),
            final(self).sources_spec() == old(self).sources_spec(),
            final(self).diagnostics_spec() == old(self).diagnostics_spec(),
    {
        Err(Error::Runtime { message: owned(message), span: self.span() })
    }

    /// Raises a non-local jump (`break`, `return`) at the current span.
    pub fn signal(&self, label: &'static str) -> (e: Error)
        ensures
            e matches Error::Signal { label: l, span } && l == label && span == top(self.spans_spec()),
    {
        Error::Signal { label, span: self.span() }
    }

    /// Records a diagnostic, located at the current span unless it already
    /// has a location, and continues.
    pub fn report(&mut self, d: Diagnostic)
        ensures
            final(self).diagnostics_spec().len() == old(self).diagnostics_spec().len() + 1,
            final(self).diagnostics_spec().drop_last() == old(self).diagnostics_spec(),
            final(self).diagnostics_spec().last().span == if d.span is Some {
                d.span
            } else {
                top(old(self).spans_spec())
            },
            final(self).diagnostics_spec().last().message == d.message,
            final(self).diagnostics_spec().last().severity == d.severity,
            final(self).spans_spec() == old(self).spans_spec(),
            final(self).sources_spec() == old(self).sources_spec(),
    {
        let span = self.span();
        self.diagnostics.push(d.or_at(span));
        assert(self.diagnostics@.drop_last() =~= old(self).diagnostics@);
    }

    /// Records a diagnostic and fails with `AlreadyReported`, so the failure
    /// propagates without a second message.
    pub fn report_and_fail<T>(&mut self, d: Diagnostic) -> (r: Result<T, Error>)
        ensures
            r matches Err(Error::AlreadyReported),
            final(self).diagnostics_spec().len() == old(self).diagnostics_spec().len() + 1,
            final(self).diagnostics_spec().drop_last() == old(self).diagnostics_spec(),
            final(self).diagnostics_spec().last().span == if d.span is Some {
                d.span
            } else {
                top(old(self).spans_spec())
            },
            final(self).diagnostics_spec().last().message == d.message,
            final(self).diagnostics_spec().last().severity == d.severity,
            final(self).spans_spec() == old(self).spans_spec(),
            final(self).sources_spec() == old(self).sources_spec(),
    {
        self.report(d);
        Err(Error::AlreadyReported)
    }

    pub fn diagnostics(&self) -> (ds: &[Diagnostic])
        ensures
            ds@ == self.diagnostics_spec(),
    {
        self.diagnostics.as_slice()
    }

    /// Whether an error has been recorded.
    pub fn has_errors(&self) -> (b: bool)
        ensures
            b == exists|i: int|
                0 <= i < self.diagnostics_spec().len() && #[trigger] self.diagnostics_spec()[i].severity
                    == Severity::Error,
    {
        let mut i: usize = 0;
        while i < self.diagnostics.len()
            invariant
                i <= self.diagnostics@.len(),
                forall|j: int| 0 <= j < i ==> #[trigger] self.diagnostics@[j].severity != Severity::Error,
            decreases self.diagnostics@.len() - i,
        {
            if self.diagnostics[i].severity == Severity::Error {
                return true;
            }
            i = i + 1;
        }
        false
    }

    /// Renders an error the way diagnostics render, so a returned error and
    /// a reported diagnostic look alike. An already reported failure renders
    /// as nothing; an uncaught signal names itself.
    pub fn render(&self, e: &Error) -> (out: String)
        ensures
            e is AlreadyReported ==> out@.len() == 0,
            e matches Error::Runtime { message, span: None } ==> out@ == "error"@ + ": "@ + message@ + seq!['\n'],
            e matches Error::Runtime { message, span } ==> out@ == error_text(self.sources_spec(), message@, *span),
            e matches Error::Signal { label, span } ==> out@ == error_text(
                self.sources_spec(),
                "`"@ + label@ + "` is not inside anything that handles it"@,
                *span,
            ),
    {
        match e {
            Error::AlreadyReported => String::new(),
            Error::Runtime { message, span } => {
                let d = Diagnostic::error(message.as_str());
                let d = match span {
                    Some(s) => d.at(*s),
                    None => d,
                };
                d.render(&self.sources)
            },
            Error::Signal { label, span } => {
                let d = Diagnostic::error(cat3("`", label, "` is not inside anything that handles it").as_str());
                let d = match span {
                    Some(s) => d.at(*s),
                    None => d,
                };
                d.render(&self.sources)
            },
        }
    }

    /// Every recorded diagnostic rendered, separated by blank lines.
    pub fn render_all(&self) -> (out: String)
        ensures
            self.diagnostics_spec().len() == 0 ==> out@.len() == 0,
            out@ == joined(
                self.diagnostics_spec().map_values(|d: Diagnostic| d.render_spec(&self.sources_spec())),
                "\n"@,
            ),
    {
        let ghost parts = self.diagnostics@.map_values(|d: Diagnostic| d.render_spec(&self.sources));
        let mut out = String::new();
        let mut i: usize = 0;
        proof { assert(parts.take(0) =~= Seq::<Seq<char>>::empty()); }
        while i < self.diagnostics.len()
            invariant
                i <= self.diagnostics@.len(),
                i == 0 ==> out@.len() == 0,
                parts == self.diagnostics@.map_values(|d: Diagnostic| d.render_spec(&self.sources)),
                out@ == joined(parts.take(i as int), "\n"@),
            decreases self.diagnostics@.len() - i,
        {
            let ghost o0 = out@;
            if i > 0 {
                out.append("\n");
            }
            let r = self.diagnostics[i].render(&self.sources);
            out.append(r.as_str());
            proof {
                assert(parts.take(i + 1).drop_last() =~= parts.take(i as int));
                assert(parts[i as int] == r@);
                assert(out@ =~= joined(parts.take(i + 1), "\n"@));
            }
            i = i + 1;
        }
        proof { assert(parts.take(parts.len() as int) =~= parts); }
        out
    }
}

/// Entering a span and leaving again restores the stack, so the innermost
/// span outside is what it was before.
pub proof fn enter_then_leave_restores(spans: Seq<Span>, span: Span)
    ensures
        spans.push(span).len() > 0,
        spans.push(span).drop_last() == spans,
        top(spans.push(span)) == Some(span),
{
    assert(spans.push(span).drop_last() =~= spans);
}

} // verus!
