//! An owned identifier for the generated AST, keeping both spellings:
//! `key` to look a symbol up, `text` to report it the way it was written.

use vstd::prelude::*;
use crate::runtime::source::Span;
use crate::text::{ascii_lowercase, lower_char, lower_seq, owned};

verus! {

#[derive(Clone, Debug, PartialEq, Eq)]
pub struct Name {
    text: String,
    key: String,
    span: Span,
}

impl Name {
    pub closed spec fn text_spec(&self) -> Seq<char> {
        self.text@
    }

    pub closed spec fn key_spec(&self) -> Seq<char> {
        self.key@
    }

    pub closed spec fn span_spec(&self) -> Span {
        self.span
    }

    /// Folds ASCII only, matching the folding the generated parser performs
    /// when matching.
    pub fn new(text: &str, span: Span) -> (n: Name)
        ensures
            n.text_spec() == text@,
            n.key_spec() == lower_seq(text@),
            n.span_spec() == span,
    {
        Name { text: owned(text), key: ascii_lowercase(text), span }
    }

    /// The spelling as written, for diagnostics.
    pub fn text(&self) -> (s: &str)
        ensures
            s@ == self.text_spec(),
    {
        self.text.as_str()
    }

    /// The folded canonical form, for symbol-table lookup.
    pub fn key(&self) -> (s: &str)
        ensures
            s@ == self.key_spec(),
    {
        self.key.as_str()
    }

    pub fn span(&self) -> (s: Span)
        ensures
            s == self.span_spec(),
    {
        self.span
    }
}

/// A key is already folded: folding it again changes nothing.
pub proof fn a_key_folds_to_itself(text: Seq<char>)
    ensures
        lower_seq(lower_seq(text)) == lower_seq(text),
{
    assert forall|i: int| 0 <= i < text.len() implies #[trigger] lower_char(lower_char(text[i])) == lower_char(text[i]) by {
        let c = text[i];
        if 'A' <= c && c <= 'Z' {
            assert(((c as u32) + 32) as char as u32 == (c as u32) + 32);
        }
    }
    assert(lower_seq(lower_seq(text)) =~= lower_seq(text));
}

} // verus!
