//! The error type generated handlers return.

use vstd::prelude::*;
use crate::runtime::source::Span;
use crate::text::{cat3, owned};

verus! {

/// Non-exhaustive on purpose: a language's own control flow arrives as a
/// new variant.
#[derive(Clone, Debug, PartialEq, Eq)]
#[non_exhaustive]
pub enum Error {
    /// A diagnostic has already been recorded for this failure: it
    /// propagates without a second message, so one bad expression yields
    /// one diagnostic.
    AlreadyReported,
    Runtime { message: String, span: Option<Span> },
    /// A non-local jump the target language defines (`break`, `return`),
    /// matched by name.
    Signal { label: &'static str, span: Option<Span> },
}

impl Error {
    pub fn runtime(message: &str) -> (e: Error)
        ensures
            e matches Error::Runtime { message: m, span } && m@ == message@ && span is None,
    {
        Error::Runtime { message: owned(message), span: None }
    }

    /// Locates a runtime error or a signal; an already reported failure has
    /// no location of its own.
    pub fn at(self, span: Span) -> (e: Error)
        ensures
            match self {
                Error::AlreadyReported => e is AlreadyReported,
                Error::Runtime { message, .. } => e matches Error::Runtime { message: m, span: s } && m == message && s == Some(span),
                Error::Signal { label, .. } => e matches Error::Signal { label: l, span: s } && l == label && s == Some(span),
            },
    {
        match self {
            Error::AlreadyReported => Error::AlreadyReported,
            Error::Runtime { message, .. } => Error::Runtime { message, span: Some(span) },
            Error::Signal { label, .. } => Error::Signal { label, span: Some(span) },
        }
    }

    /// A non-local jump named `label`.
    pub fn signal(label: &'static str) -> (e: Error)
        ensures
            e matches Error::Signal { label: l, span } && l == label && span is None,
    {
        Error::Signal { label, span: None }
    }

    pub open spec fn is_signal_spec(&self, label: Seq<char>) -> bool {
        self matches Error::Signal { label: l, .. } && l@ == label
    }

    /// Whether this is the signal named `label`: matching is by name, so
    /// the runtime need not know what jumps a language has.
    pub fn is_signal(&self, label: &str) -> (b: bool)
        ensures
            b == self.is_signal_spec(label@),
    {
        match self {
            Error::Signal { label: l, .. } => crate::text::str_eq(l, label),
            _ => false,
        }
    }

    /// An operator or construct the target language does not implement.
    pub fn unsupported(what: &str) -> (e: Error)
        ensures
            e matches Error::Runtime { message: m, span } && m@ == "`"@ + what@
                + "` is not supported in this language"@ && span is None,
    {
        Error::Runtime { message: cat3("`", what, "` is not supported in this language"), span: None }
    }

    /// The message, as it reads without a location.
    pub fn to_string(&self) -> (s: String)
        ensures
            match self {
                Error::AlreadyReported => s@ == "(already reported)"@,
                Error::Runtime { message, .. } => s@ == message@,
                Error::Signal { label, .. } => s@ == "`"@ + label@ + "` here has nothing to jump to"@,
            },
    {
        match self {
            Error::AlreadyReported => owned("(already reported)"),
            Error::Runtime { message, .. } => owned(message.as_str()),
            Error::Signal { label, .. } => cat3("`", label, "` here has nothing to jump to"),
        }
    }
}

/// A located signal is still the same signal: `at` keeps what `is_signal`
/// matches on.
pub proof fn locating_keeps_the_signal(e: Error, located: Error, span: Span, label: Seq<char>)
    requires
        match e {
            Error::AlreadyReported => located is AlreadyReported,
            Error::Runtime { message, .. } => located matches Error::Runtime { message: m, span: s } && m == message && s == Some(span),
            Error::Signal { label: l0, .. } => located matches Error::Signal { label: l, span: s } && l == l0 && s == Some(span),
        },
    ensures
        located.is_signal_spec(label) == e.is_signal_spec(label),
{
}

} // verus!
