//! Parsing `.nh` source into an [`Ast`].
//!
//! A recursive descent over the tokens of [`lex`](crate::syntax::lex). The
//! expression grammar, loosest first:
//!
//! ```text
//! alt     = seq ("|" seq)*
//! seq     = labeled+
//! labeled = ["lazy"] name ":" rep | rep
//! rep     = pre ["*" | "+" | "?"]
//! pre     = ["!" | "&"] term
//! term    = "(" alt ")" | string ".." string | "^" string | string | ident
//! ```
//!
//! A choice or sequence of one part is that part; a parenthesised group is
//! its contents. Imports are recorded, not followed.

use vstd::prelude::*;
use crate::syntax::ast::{
    AllowDef, Alternative, Ast, BoundaryDef, CaseMode, Direction, ExpectDef, Expr, ExprKind,
    Fixity, GuardDef, Import, OpEntry, OpRef, Placement, PrecEntry, PrecedenceBlock, RecoverDef,
    RepeatKind, ReservedDef, RuleDef, SkipDef, TokenDef, UsePreset,
};
use crate::syntax::error::{Diagnostic, Errors};
use crate::syntax::lex::{lex, lex_spec, Tok, TokKind};
use crate::syntax::source::{FileId, SourceMap, Span, Spanned};
use crate::text::{chars_of, owned, str_eq};

verus! {

/// Whether a diagnostic points into `file`.
pub open spec fn located_in(d: Diagnostic, file: FileId) -> bool {
    d.span matches Some(s) && s.file == file
}

/// Whether every top-level item of `ast` is located in `file`.
pub open spec fn items_in(ast: Ast, file: FileId) -> bool {
    &&& forall|i: int| 0 <= i < ast.imports@.len() ==> #[trigger] ast.imports@[i].span.file == file
    &&& forall|i: int| 0 <= i < ast.uses@.len() ==> #[trigger] ast.uses@[i].span.file == file
    &&& forall|i: int| 0 <= i < ast.precedence@.len() ==> #[trigger] ast.precedence@[i].span.file == file
    &&& forall|i: int| 0 <= i < ast.skips@.len() ==> #[trigger] ast.skips@[i].span.file == file
    &&& forall|i: int| 0 <= i < ast.tokens@.len() ==> #[trigger] ast.tokens@[i].span.file == file
    &&& forall|i: int| 0 <= i < ast.reserved@.len() ==> #[trigger] ast.reserved@[i].span.file == file
    &&& forall|i: int| 0 <= i < ast.guards@.len() ==> #[trigger] ast.guards@[i].span.file == file
    &&& forall|i: int| 0 <= i < ast.boundaries@.len() ==> #[trigger] ast.boundaries@[i].span.file == file
    &&& forall|i: int| 0 <= i < ast.rules@.len() ==> #[trigger] ast.rules@[i].span.file == file
    &&& forall|i: int| 0 <= i < ast.recovers@.len() ==> #[trigger] ast.recovers@[i].span.file == file
    &&& forall|i: int| 0 <= i < ast.expects@.len() ==> #[trigger] ast.expects@[i].span.file == file
    &&& forall|i: int| 0 <= i < ast.allows@.len() ==> #[trigger] ast.allows@[i].span.file == file
}

struct Parser {
    toks: Vec<Tok>,
    file: FileId,
    /// Byte offset of the end of the text, where "end of file" errors point.
    end: u32,
}

impl Parser {
    spec fn len(&self) -> int {
        self.toks@.len() as int
    }

    fn span(&self, a: usize, b: usize) -> (s: Span)
        requires
            a < b <= self.toks@.len(),
        ensures
            s.file == self.file,
    {
        Span::new(self.file, self.toks[a].lo, self.toks[b - 1].hi)
    }

    fn error_at(&self, pos: usize, what: &str) -> (d: Diagnostic)
        ensures
            located_in(d, self.file),
    {
        let mut msg = owned("expected ");
        msg.append(what);
        let span = if pos < self.toks.len() {
            Span::new(self.file, self.toks[pos].lo, self.toks[pos].hi)
        } else {
            Span::new(self.file, self.end, self.end)
        };
        Diagnostic::error(msg.as_str()).at(span)
    }

    /// Whether the token at `pos` is the identifier `w`.
    spec fn word_tok(&self, pos: int, w: Seq<char>) -> bool {
        0 <= pos < self.toks@.len() && self.toks@[pos].kind == TokKind::Ident && self.toks@[pos].text@ == w
    }

    /// Whether the token at `pos` is the punctuation `p`.
    spec fn punct_tok(&self, pos: int, p: Seq<char>) -> bool {
        0 <= pos < self.toks@.len() && self.toks@[pos].kind == TokKind::Punct && self.toks@[pos].text@ == p
    }

    /// Whether the token at `pos` is a repetition mark, `*`, `+` or `?`.
    spec fn mark_tok(&self, pos: int) -> bool {
        self.punct_tok(pos, "*"@) || self.punct_tok(pos, "+"@) || self.punct_tok(pos, "?"@)
    }

    fn is_ident(&self, pos: usize) -> (b: bool)
        ensures
            b ==> pos < self.toks@.len(),
            b == (pos < self.toks@.len() && self.toks@[pos as int].kind == TokKind::Ident),
            self.toks@.len() <= usize::MAX,
    {
        pos < self.toks.len() && self.toks[pos].kind == TokKind::Ident
    }

    fn is_str(&self, pos: usize) -> (b: bool)
        ensures
            b ==> pos < self.toks@.len(),
            b == (pos < self.toks@.len() && self.toks@[pos as int].kind == TokKind::Str),
            self.toks@.len() <= usize::MAX,
    {
        pos < self.toks.len() && self.toks[pos].kind == TokKind::Str
    }

    /// Whether the token at `pos` is the word `w`.
    fn is_word(&self, pos: usize, w: &str) -> (b: bool)
        ensures
            b ==> pos < self.toks@.len(),
            b == self.word_tok(pos as int, w@),
            self.toks@.len() <= usize::MAX,
    {
        pos < self.toks.len() && self.toks[pos].kind == TokKind::Ident && str_eq(
            self.toks[pos].text.as_str(),
            w,
        )
    }

    /// Whether the token at `pos` is the punctuation `p`.
    fn is_punct(&self, pos: usize, p: &str) -> (b: bool)
        ensures
            b ==> pos < self.toks@.len(),
            b == self.punct_tok(pos as int, p@),
            self.toks@.len() <= usize::MAX,
    {
        pos < self.toks.len() && self.toks[pos].kind == TokKind::Punct && str_eq(
            self.toks[pos].text.as_str(),
            p,
        )
    }

    fn expect_punct(&self, pos: usize, p: &str, what: &str) -> (r: Result<usize, Diagnostic>)
        ensures
            r matches Ok(q) ==> q == pos + 1 && q <= self.toks@.len(),
            r matches Err(d) ==> located_in(d, self.file),
            r is Ok <==> self.punct_tok(pos as int, p@),
    {
        if self.is_punct(pos, p) {
            Ok(pos + 1)
        } else {
            Err(self.error_at(pos, what))
        }
    }

    fn expect_word(&self, pos: usize, w: &str, what: &str) -> (r: Result<usize, Diagnostic>)
        ensures
            r matches Ok(q) ==> q == pos + 1 && q <= self.toks@.len(),
            r matches Err(d) ==> located_in(d, self.file),
    {
        if self.is_word(pos, w) {
            Ok(pos + 1)
        } else {
            Err(self.error_at(pos, what))
        }
    }

    fn text_at(&self, pos: usize) -> (s: Spanned<String>)
        requires
            pos < self.toks@.len(),
            self.toks@.len() <= usize::MAX,
        ensures
            s.value@ == self.toks@[pos as int].text@,
            s.span.file == self.file,
    {
        Spanned::new(owned(self.toks[pos].text.as_str()), self.span(pos, pos + 1))
    }

    fn expect_ident(&self, pos: usize, what: &str) -> (r: Result<(Spanned<String>, usize), Diagnostic>)
        ensures
            r matches Ok((s, q)) ==> q == pos + 1 && q <= self.toks@.len() && s.span.file == self.file,
            r matches Err(d) ==> located_in(d, self.file),
    {
        if self.is_ident(pos) {
            Ok((self.text_at(pos), pos + 1))
        } else {
            Err(self.error_at(pos, what))
        }
    }

    fn expect_str(&self, pos: usize, what: &str) -> (r: Result<(Spanned<String>, usize), Diagnostic>)
        ensures
            r matches Ok((s, q)) ==> q == pos + 1 && q <= self.toks@.len() && s.span.file == self.file,
            r matches Err(d) ==> located_in(d, self.file),
    {
        if self.is_str(pos) {
            Ok((self.text_at(pos), pos + 1))
        } else {
            Err(self.error_at(pos, what))
        }
    }

    /// Whether a term can start at `pos`.
    fn starts_term(&self, pos: usize) -> (b: bool)
        ensures
            b ==> pos < self.toks@.len(),
            b == (pos < self.toks@.len() && (self.toks@[pos as int].kind == TokKind::Ident
                || self.toks@[pos as int].kind == TokKind::Str || self.punct_tok(pos as int, "("@)
                || self.punct_tok(pos as int, "!"@) || self.punct_tok(pos as int, "&"@) || self.punct_tok(
                pos as int,
                "^"@,
            ))),
    {
        self.is_ident(pos) || self.is_str(pos) || self.is_punct(pos, "(") || self.is_punct(pos, "!")
            || self.is_punct(pos, "&") || self.is_punct(pos, "^")
    }

    // -----------------------------------------------------------------------
    // Expressions
    // -----------------------------------------------------------------------

    fn alt(&self, pos: usize) -> (r: Result<(Expr, usize), Diagnostic>)
        ensures
            r matches Ok((_, q)) ==> pos < q <= self.toks@.len(),
            r matches Err(d) ==> located_in(d, self.file),
        decreases self.toks@.len() - pos, 5nat,
    {
        let (first, mut p) = match self.seq(pos) {
            Ok(v) => v,
            Err(d) => return Err(d),
        };
        if !self.is_punct(p, "|") {
            return Ok((first, p));
        }
        let mut parts: Vec<Expr> = Vec::new();
        parts.push(first);
        while self.is_punct(p, "|")
            invariant
                pos < p <= self.toks@.len(),
            decreases self.toks@.len() - p,
        {
            let (next, q) = match self.seq(p + 1) {
                Ok(v) => v,
                Err(d) => return Err(d),
            };
            parts.push(next);
            p = q;
        }
        Ok((Expr { kind: ExprKind::Choice(parts), span: self.span(pos, p) }, p))
    }

    fn seq(&self, pos: usize) -> (r: Result<(Expr, usize), Diagnostic>)
        ensures
            r matches Ok((_, q)) ==> pos < q <= self.toks@.len(),
            r matches Err(d) ==> located_in(d, self.file),
        decreases self.toks@.len() - pos, 4nat,
    {
        if !self.starts_term(pos) && !self.is_word(pos, "lazy") {
            return Err(self.error_at(pos, "an expression"));
        }
        let (first, mut p) = match self.labeled(pos) {
            Ok(v) => v,
            Err(d) => return Err(d),
        };
        if !self.starts_term(p) {
            return Ok((first, p));
        }
        let mut parts: Vec<Expr> = Vec::new();
        parts.push(first);
        while self.starts_term(p)
            invariant
                pos < p <= self.toks@.len(),
            decreases self.toks@.len() - p,
        {
            let (next, q) = match self.labeled(p) {
                Ok(v) => v,
                Err(d) => return Err(d),
            };
            parts.push(next);
            p = q;
        }
        Ok((Expr { kind: ExprKind::Sequence(parts), span: self.span(pos, p) }, p))
    }

    fn labeled(&self, pos: usize) -> (r: Result<(Expr, usize), Diagnostic>)
        ensures
            r matches Ok((_, q)) ==> pos < q <= self.toks@.len(),
            r matches Err(d) ==> located_in(d, self.file),
        decreases self.toks@.len() - pos, 3nat,
    {
        let lazy = self.is_word(pos, "lazy") && self.is_ident(pos + 1) && self.is_punct(pos + 2, ":");
        let at = if lazy { pos + 1 } else { pos };
        if self.is_ident(at) && self.is_punct(at + 1, ":") {
            let name = self.text_at(at);
            let (inner, q) = match self.rep(at + 2) {
                Ok(v) => v,
                Err(d) => return Err(d),
            };
            let kind = ExprKind::Bind { name, inner: Box::new(inner), lazy };
            Ok((Expr { kind, span: self.span(pos, q) }, q))
        } else {
            self.rep(pos)
        }
    }

    fn rep(&self, pos: usize) -> (r: Result<(Expr, usize), Diagnostic>)
        ensures
            r matches Ok((_, q)) ==> pos < q <= self.toks@.len(),
            r matches Err(d) ==> located_in(d, self.file),
            // A trailing `*`, `+` or `?` makes the repetition of that kind.
            r matches Ok((e, q)) ==> (self.punct_tok(q - 1, "*"@) ==> (e.kind matches ExprKind::Repeat {
                kind,
                ..
            } && kind == RepeatKind::ZeroOrMore)),
            r matches Ok((e, q)) ==> (self.punct_tok(q - 1, "+"@) ==> (e.kind matches ExprKind::Repeat {
                kind,
                ..
            } && kind == RepeatKind::OneOrMore)),
            r matches Ok((e, q)) ==> (self.punct_tok(q - 1, "?"@) ==> (e.kind matches ExprKind::Repeat {
                kind,
                ..
            } && kind == RepeatKind::Optional)),
        decreases self.toks@.len() - pos, 2nat,
    {
        proof {
            reveal_strlit("*");
            reveal_strlit("+");
            reveal_strlit("?");
            assert("*"@[0] != "+"@[0] && "*"@[0] != "?"@[0] && "+"@[0] != "?"@[0]);
        }
        let (inner, p) = match self.pre(pos) {
            Ok(v) => v,
            Err(d) => return Err(d),
        };
        let kind = if self.is_punct(p, "*") {
            RepeatKind::ZeroOrMore
        } else if self.is_punct(p, "+") {
            RepeatKind::OneOrMore
        } else if self.is_punct(p, "?") {
            RepeatKind::Optional
        } else {
            return Ok((inner, p));
        };
        let span = self.span(pos, p + 1);
        Ok((Expr { kind: ExprKind::Repeat { inner: Box::new(inner), kind }, span }, p + 1))
    }

    fn pre(&self, pos: usize) -> (r: Result<(Expr, usize), Diagnostic>)
        ensures
            r matches Ok((_, q)) ==> pos < q <= self.toks@.len(),
            r matches Err(d) ==> located_in(d, self.file),
            // `!x` is the negative lookahead and `&x` the positive one.
            self.punct_tok(pos as int, "!"@) ==> (r matches Ok((e, _)) ==> (e.kind matches ExprKind::Lookahead {
                negative,
                ..
            } && negative)),
            self.punct_tok(pos as int, "&"@) ==> (r matches Ok((e, _)) ==> (e.kind matches ExprKind::Lookahead {
                negative,
                ..
            } && !negative)),
            r matches Ok((_, q)) ==> !self.mark_tok(q - 1),
        decreases self.toks@.len() - pos, 1nat,
    {
        proof {
            reveal_strlit("!");
            reveal_strlit("&");
            assert("&"@[0] != "!"@[0]);
        }
        let negative = self.is_punct(pos, "!");
        if negative || self.is_punct(pos, "&") {
            let (inner, q) = match self.term(pos + 1) {
                Ok(v) => v,
                Err(d) => return Err(d),
            };
            let span = self.span(pos, q);
            Ok((Expr { kind: ExprKind::Lookahead { inner: Box::new(inner), negative }, span }, q))
        } else {
            self.term(pos)
        }
    }

    fn term(&self, pos: usize) -> (r: Result<(Expr, usize), Diagnostic>)
        ensures
            r matches Ok((_, q)) ==> pos < q <= self.toks@.len(),
            r matches Err(d) ==> located_in(d, self.file),
            // `^"lit"` is the case-insensitive literal whose value is the string's.
            self.punct_tok(pos as int, "^"@) && pos + 1 < self.toks@.len() && self.toks@[pos + 1].kind
                == TokKind::Str ==> (r matches Ok((e, q)) && q == pos + 2 && (e.kind matches ExprKind::Literal {
                value,
                case_insensitive,
            } && case_insensitive && value@ == self.toks@[pos + 1].text@)),
            // A bare string not followed by `..` is the case-sensitive literal.
            pos < self.toks@.len() && self.toks@[pos as int].kind == TokKind::Str && !self.punct_tok(
                pos + 1,
                ".."@,
            ) ==> (r matches Ok((e, q)) && q == pos + 1 && (e.kind matches ExprKind::Literal {
                value,
                case_insensitive,
            } && !case_insensitive && value@ == self.toks@[pos as int].text@)),
            // A string, `..` and a string are a character range.
            pos + 2 < self.toks@.len() && self.toks@[pos as int].kind == TokKind::Str && self.punct_tok(
                pos + 1,
                ".."@,
            ) && self.toks@[pos + 2].kind == TokKind::Str ==> (r matches Ok((e, q)) && q == pos + 3 && (e.kind matches ExprKind::CharRange {
                lo,
                hi,
            } && lo@ == self.toks@[pos as int].text@ && hi@ == self.toks@[pos + 2].text@)),
            // An identifier is a reference to the rule of that name.
            pos < self.toks@.len() && self.toks@[pos as int].kind == TokKind::Ident ==> (r matches Ok((e, q)) && q
                == pos + 1 && (e.kind matches ExprKind::Ref(name) && name@ == self.toks@[pos as int].text@)),
            r matches Ok((_, q)) ==> !self.mark_tok(q - 1),
        decreases self.toks@.len() - pos, 0nat,
    {
        proof {
            reveal_strlit("^");
            reveal_strlit("(");
            reveal_strlit(")");
            reveal_strlit("*");
            reveal_strlit("+");
            reveal_strlit("?");
            assert("^"@[0] != "("@[0]);
            assert(")"@[0] != "*"@[0] && ")"@[0] != "+"@[0] && ")"@[0] != "?"@[0]);
        }
        if self.is_punct(pos, "(") {
            let (inner, q) = match self.alt(pos + 1) {
                Ok(v) => v,
                Err(d) => return Err(d),
            };
            match self.expect_punct(q, ")", "`)`") {
                Ok(q2) => Ok((inner, q2)),
                Err(d) => Err(d),
            }
        } else if self.is_str(pos) {
            if self.is_punct(pos + 1, "..") {
                if !self.is_str(pos + 2) {
                    return Err(self.error_at(pos + 2, "a string literal"));
                }
                let lo = owned(self.toks[pos].text.as_str());
                let hi = owned(self.toks[pos + 2].text.as_str());
                Ok((Expr { kind: ExprKind::CharRange { lo, hi }, span: self.span(pos, pos + 3) }, pos + 3))
            } else {
                let value = owned(self.toks[pos].text.as_str());
                let kind = ExprKind::Literal { value, case_insensitive: false };
                Ok((Expr { kind, span: self.span(pos, pos + 1) }, pos + 1))
            }
        } else if self.is_punct(pos, "^") {
            if !self.is_str(pos + 1) {
                return Err(self.error_at(pos + 1, "a string literal"));
            }
            let value = owned(self.toks[pos + 1].text.as_str());
            let kind = ExprKind::Literal { value, case_insensitive: true };
            Ok((Expr { kind, span: self.span(pos, pos + 2) }, pos + 2))
        } else if self.is_ident(pos) {
            let name = owned(self.toks[pos].text.as_str());
            Ok((Expr { kind: ExprKind::Ref(name), span: self.span(pos, pos + 1) }, pos + 1))
        } else {
            Err(self.error_at(pos, "an expression"))
        }
    }

    /// `seq ["->" label ["place"]] ("|" ...)*`, the body of a rule.
    fn alternatives(&self, pos: usize) -> (r: Result<(Vec<Alternative>, usize), Diagnostic>)
        requires
            pos <= self.toks@.len(),
        ensures
            r matches Ok((_, q)) ==> pos < q <= self.toks@.len(),
            r matches Err(d) ==> located_in(d, self.file),
    {
        let mut alts: Vec<Alternative> = Vec::new();
        let mut p = pos;
        loop
            invariant
                pos <= p <= self.toks@.len(),
                alts@.len() > 0 ==> pos < p,
            decreases self.toks@.len() - p,
        {
            let start = p;
            let (body, q) = match self.seq(p) {
                Ok(v) => v,
                Err(d) => return Err(d),
            };
            let mut q = q;
            let mut label: Option<Spanned<String>> = None;
            let mut place = false;
            if self.is_punct(q, "->") {
                let (l, q2) = match self.expect_ident(q + 1, "a label") {
                    Ok(v) => v,
                    Err(d) => return Err(d),
                };
                label = Some(l);
                q = q2;
                if self.is_word(q, "place") {
                    place = true;
                    q = q + 1;
                }
            }
            alts.push(Alternative { body, label, place, span: self.span(start, q) });
            if self.is_punct(q, "|") {
                p = q + 1;
            } else {
                return Ok((alts, q));
            }
        }
    }

    // -----------------------------------------------------------------------
    // Precedence blocks
    // -----------------------------------------------------------------------

    /// `["word"] string`
    fn op_ref(&self, pos: usize) -> (r: Result<(OpRef, usize), Diagnostic>)
        ensures
            r matches Ok((_, q)) ==> pos < q <= self.toks@.len(),
            r matches Err(d) ==> located_in(d, self.file),
    {
        let word = self.is_word(pos, "word");
        let at = if word { pos + 1 } else { pos };
        let (literal, q) = match self.expect_str(at, "an operator literal") {
            Ok(v) => v,
            Err(d) => return Err(d),
        };
        Ok((OpRef { word, literal, span: self.span(pos, q) }, q))
    }

    fn fixity_at(&self, pos: usize) -> (r: Option<Fixity>)
        ensures
            r is Some ==> pos < self.toks@.len(),
            r == (if self.word_tok(pos as int, "left"@) {
                Some(Fixity::Left)
            } else if self.word_tok(pos as int, "right"@) {
                Some(Fixity::Right)
            } else if self.word_tok(pos as int, "prefix"@) {
                Some(Fixity::Prefix)
            } else if self.word_tok(pos as int, "postfix"@) {
                Some(Fixity::Postfix)
            } else {
                None
            }),
    {
        if self.is_word(pos, "left") {
            Some(Fixity::Left)
        } else if self.is_word(pos, "right") {
            Some(Fixity::Right)
        } else if self.is_word(pos, "prefix") {
            Some(Fixity::Prefix)
        } else if self.is_word(pos, "postfix") {
            Some(Fixity::Postfix)
        } else {
            None
        }
    }

    /// `fixity op ("|" op)* [above|below "lit"] [lazy(a, b)] [-> role] ;`
    fn op_entry(&self, pos: usize, fixity: Fixity) -> (r: Result<(OpEntry, usize), Diagnostic>)
        requires
            pos < self.toks@.len(),
            self.toks@.len() <= usize::MAX,
        ensures
            r matches Ok((_, q)) ==> pos < q <= self.toks@.len(),
            r matches Err(d) ==> located_in(d, self.file),
    {
        let fix = Spanned::new(fixity, self.span(pos, pos + 1));
        let mut ops: Vec<OpRef> = Vec::new();
        let (first, mut p) = match self.op_ref(pos + 1) {
            Ok(v) => v,
            Err(d) => return Err(d),
        };
        ops.push(first);
        while self.is_punct(p, "|")
            invariant
                pos < p <= self.toks@.len(),
            decreases self.toks@.len() - p,
        {
            let (next, q) = match self.op_ref(p + 1) {
                Ok(v) => v,
                Err(d) => return Err(d),
            };
            ops.push(next);
            p = q;
        }
        let mut placement: Option<Placement> = None;
        let above = self.is_word(p, "above");
        if above || self.is_word(p, "below") {
            let (anchor, q) = match self.expect_str(p + 1, "an anchor operator literal") {
                Ok(v) => v,
                Err(d) => return Err(d),
            };
            let direction = if above { Direction::Above } else { Direction::Below };
            placement = Some(Placement { direction, anchor, span: self.span(p, q) });
            p = q;
        }
        let mut lazy: Vec<Spanned<String>> = Vec::new();
        if self.is_word(p, "lazy") {
            p = match self.expect_punct(p + 1, "(", "`(`") {
                Ok(q) => q,
                Err(d) => return Err(d),
            };
            loop
                invariant
                    pos < p <= self.toks@.len(),
                decreases self.toks@.len() - p,
            {
                let (name, q) = match self.expect_ident(p, "an operand name") {
                    Ok(v) => v,
                    Err(d) => return Err(d),
                };
                lazy.push(name);
                if self.is_punct(q, ",") {
                    p = q + 1;
                } else {
                    p = match self.expect_punct(q, ")", "`)` or `,`") {
                        Ok(q2) => q2,
                        Err(d) => return Err(d),
                    };
                    break;
                }
            }
        }
        let mut role: Option<Spanned<String>> = None;
        if self.is_punct(p, "->") {
            let (name, q) = match self.expect_ident(p + 1, "a role name") {
                Ok(v) => v,
                Err(d) => return Err(d),
            };
            role = Some(name);
            p = q;
        }
        let end = match self.expect_punct(p, ";", "`;`") {
            Ok(q) => q,
            Err(d) => return Err(d),
        };
        Ok((OpEntry { fixity: fix, ops, placement, lazy, role, span: self.span(pos, end) }, end))
    }

    /// `precedence [override] { entry* }`
    fn precedence(&self, pos: usize) -> (r: Result<(PrecedenceBlock, usize), Diagnostic>)
        requires
            pos < self.toks@.len(),
            self.toks@.len() <= usize::MAX,
        ensures
            r matches Ok((b, q)) ==> pos < q <= self.toks@.len() && b.span.file == self.file,
            r matches Err(d) ==> located_in(d, self.file),
    {
        let is_override = self.is_word(pos + 1, "override");
        let open_at = if is_override { pos + 2 } else { pos + 1 };
        let mut p = match self.expect_punct(open_at, "{", "`{`") {
            Ok(q) => q,
            Err(d) => return Err(d),
        };
        let mut entries: Vec<PrecEntry> = Vec::new();
        while !self.is_punct(p, "}")
            invariant
                pos < p <= self.toks@.len(),
            decreases self.toks@.len() - p,
        {
            if self.is_word(p, "atom") {
                let (rule, q) = match self.expect_ident(p + 1, "the atom rule") {
                    Ok(v) => v,
                    Err(d) => return Err(d),
                };
                let q2 = match self.expect_punct(q, ";", "`;`") {
                    Ok(v) => v,
                    Err(d) => return Err(d),
                };
                entries.push(PrecEntry::Atom { rule, span: self.span(p, q2) });
                p = q2;
            } else if self.is_word(p, "remove") {
                let mut ops: Vec<OpRef> = Vec::new();
                let mut q = p + 1;
                let (first, q1) = match self.op_ref(q) {
                    Ok(v) => v,
                    Err(d) => return Err(d),
                };
                ops.push(first);
                q = q1;
                while !self.is_punct(q, ";")
                    invariant
                        p < q <= self.toks@.len(),
                    decreases self.toks@.len() - q,
                {
                    let (next, q2) = match self.op_ref(q) {
                        Ok(v) => v,
                        Err(d) => return Err(d),
                    };
                    ops.push(next);
                    q = q2;
                }
                entries.push(PrecEntry::Remove { ops, span: self.span(p, q + 1) });
                p = q + 1;
            } else {
                match self.fixity_at(p) {
                    Some(f) => {
                        let (entry, q) = match self.op_entry(p, f) {
                            Ok(v) => v,
                            Err(d) => return Err(d),
                        };
                        entries.push(PrecEntry::Op(entry));
                        p = q;
                    },
                    None => {
                        return Err(
                            self.error_at(
                                p,
                                "`atom`, `remove`, `left`, `right`, `prefix`, `postfix`, or `}`",
                            ),
                        );
                    },
                }
            }
        }
        Ok((PrecedenceBlock { is_override, entries, span: self.span(pos, p + 1) }, p + 1))
    }

    // -----------------------------------------------------------------------
    // Items
    // -----------------------------------------------------------------------

    /// `{ string* }`
    fn word_list(&self, pos: usize) -> (r: Result<(Vec<Spanned<String>>, usize), Diagnostic>)
        ensures
            r matches Ok((_, q)) ==> pos < q <= self.toks@.len(),
            r matches Err(d) ==> located_in(d, self.file),
    {
        let mut p = match self.expect_punct(pos, "{", "`{`") {
            Ok(q) => q,
            Err(d) => return Err(d),
        };
        let mut words: Vec<Spanned<String>> = Vec::new();
        while self.is_str(p)
            invariant
                pos < p <= self.toks@.len(),
            decreases self.toks@.len() - p,
        {
            words.push(self.text_at(p));
            p = p + 1;
        }
        match self.expect_punct(p, "}", "a string literal or `}`") {
            Ok(q) => Ok((words, q)),
            Err(d) => Err(d),
        }
    }

    /// `name = [@] [case-insensitive] alt ;` after `token`.
    fn token_def(&self, pos: usize) -> (r: Result<(TokenDef, usize), Diagnostic>)
        requires
            pos < self.toks@.len(),
            self.toks@.len() <= usize::MAX,
        ensures
            r matches Ok((t, q)) ==> pos < q <= self.toks@.len() && t.span.file == self.file,
            r matches Err(d) ==> located_in(d, self.file),
    {
        let (name, p) = match self.expect_ident(pos + 1, "a token name") {
            Ok(v) => v,
            Err(d) => return Err(d),
        };
        let mut p = match self.expect_punct(p, "=", "`=`") {
            Ok(q) => q,
            Err(d) => return Err(d),
        };
        let atomic = self.is_punct(p, "@");
        if atomic {
            p = p + 1;
        }
        let case_insensitive = self.is_word(p, "case-insensitive");
        if case_insensitive {
            p = p + 1;
        }
        let (body, q) = match self.alt(p) {
            Ok(v) => v,
            Err(d) => return Err(d),
        };
        let end = match self.expect_punct(q, ";", "`;`") {
            Ok(v) => v,
            Err(d) => return Err(d),
        };
        Ok((TokenDef { name, atomic, case_insensitive, body, span: self.span(pos, end) }, end))
    }

    /// `[silent] rule name = alternatives ;`; `at` is the `rule` keyword.
    fn rule_def(&self, pos: usize, at: usize, silent: bool) -> (r: Result<(RuleDef, usize), Diagnostic>)
        requires
            pos <= at < self.toks@.len(),
            self.toks@.len() <= usize::MAX,
        ensures
            r matches Ok((t, q)) ==> pos < q <= self.toks@.len() && t.span.file == self.file,
            r matches Err(d) ==> located_in(d, self.file),
    {
        let (name, p) = match self.expect_ident(at + 1, "a rule name") {
            Ok(v) => v,
            Err(d) => return Err(d),
        };
        let p = match self.expect_punct(p, "=", "`=`") {
            Ok(q) => q,
            Err(d) => return Err(d),
        };
        let (alternatives, q) = match self.alternatives(p) {
            Ok(v) => v,
            Err(d) => return Err(d),
        };
        let end = match self.expect_punct(q, ";", "`|` or `;`") {
            Ok(v) => v,
            Err(d) => return Err(d),
        };
        Ok((RuleDef { name, silent, alternatives, span: self.span(pos, end) }, end))
    }

    /// `expect "lit" in a.b as "msg" ;`
    fn expect_def(&self, pos: usize) -> (r: Result<(ExpectDef, usize), Diagnostic>)
        requires
            pos < self.toks@.len(),
            self.toks@.len() <= usize::MAX,
        ensures
            r matches Ok((t, q)) ==> pos < q <= self.toks@.len() && t.span.file == self.file,
            r matches Err(d) ==> located_in(d, self.file),
    {
        let (literal, p) = match self.expect_str(pos + 1, "a string literal") {
            Ok(v) => v,
            Err(d) => return Err(d),
        };
        let p = match self.expect_word(p, "in", "`in`") {
            Ok(q) => q,
            Err(d) => return Err(d),
        };
        let mut target: Vec<Spanned<String>> = Vec::new();
        let (first, mut p) = match self.expect_ident(p, "a rule name") {
            Ok(v) => v,
            Err(d) => return Err(d),
        };
        target.push(first);
        while self.is_punct(p, ".")
            invariant
                pos < p <= self.toks@.len(),
            decreases self.toks@.len() - p,
        {
            let (next, q) = match self.expect_ident(p + 1, "a label") {
                Ok(v) => v,
                Err(d) => return Err(d),
            };
            target.push(next);
            p = q;
        }
        let p = match self.expect_word(p, "as", "`as`") {
            Ok(q) => q,
            Err(d) => return Err(d),
        };
        let (message, p) = match self.expect_str(p, "a message string") {
            Ok(v) => v,
            Err(d) => return Err(d),
        };
        let end = match self.expect_punct(p, ";", "`;`") {
            Ok(v) => v,
            Err(d) => return Err(d),
        };
        Ok((ExpectDef { literal, target, message, span: self.span(pos, end) }, end))
    }

    /// `keyword name = alt ;`, shared by `skip` and `boundary`.
    fn named_body(&self, pos: usize, what: &str) -> (r: Result<(Spanned<String>, Expr, usize), Diagnostic>)
        requires
            pos < self.toks@.len(),
            self.toks@.len() <= usize::MAX,
        ensures
            r matches Ok((n, _, q)) ==> pos < q <= self.toks@.len() && n.span.file == self.file,
            r matches Err(d) ==> located_in(d, self.file),
    {
        let (name, p) = match self.expect_ident(pos + 1, what) {
            Ok(v) => v,
            Err(d) => return Err(d),
        };
        let p = match self.expect_punct(p, "=", "`=`") {
            Ok(q) => q,
            Err(d) => return Err(d),
        };
        let (body, q) = match self.alt(p) {
            Ok(v) => v,
            Err(d) => return Err(d),
        };
        match self.expect_punct(q, ";", "`;`") {
            Ok(end) => Ok((name, body, end)),
            Err(d) => Err(d),
        }
    }

    /// `keyword name ;`, `keyword "str" ;` and the like: the one-line items.
    fn simple_item(&self, pos: usize, ast: &mut Ast) -> (r: Result<usize, Diagnostic>)
        requires
            pos < self.toks@.len(),
            self.toks@.len() <= usize::MAX,
            items_in(*old(ast), self.file),
        ensures
            r matches Ok(q) ==> pos < q <= self.toks@.len(),
            r matches Ok(_) ==> items_in(*final(ast), self.file),
            r matches Err(d) ==> located_in(d, self.file),
    {
        if self.is_word(pos, "grammar") {
            let (name, p) = match self.expect_ident(pos + 1, "a grammar name") {
                Ok(v) => v,
                Err(d) => return Err(d),
            };
            let end = match self.expect_punct(p, ";", "`;`") {
                Ok(v) => v,
                Err(d) => return Err(d),
            };
            ast.grammar_name = Some(name);
            Ok(end)
        } else if self.is_word(pos, "import") {
            let (path, p) = match self.expect_str(pos + 1, "an import path") {
                Ok(v) => v,
                Err(d) => return Err(d),
            };
            let end = match self.expect_punct(p, ";", "`;`") {
                Ok(v) => v,
                Err(d) => return Err(d),
            };
            ast.imports.push(Import { path, span: self.span(pos, end) });
            Ok(end)
        } else if self.is_word(pos, "use") {
            let p = match self.expect_word(pos + 1, "operators", "`operators`") {
                Ok(q) => q,
                Err(d) => return Err(d),
            };
            let p = match self.expect_punct(p, "::", "`::`") {
                Ok(q) => q,
                Err(d) => return Err(d),
            };
            let (preset, p) = match self.expect_ident(p, "a preset name") {
                Ok(v) => v,
                Err(d) => return Err(d),
            };
            let end = match self.expect_punct(p, ";", "`;`") {
                Ok(v) => v,
                Err(d) => return Err(d),
            };
            ast.uses.push(UsePreset { preset, span: self.span(pos, end) });
            Ok(end)
        } else if self.is_word(pos, "keywords") {
            let p = pos + 1;
            let value = if self.is_word(p, "case-insensitive") {
                CaseMode::Insensitive
            } else if self.is_word(p, "case-sensitive") {
                CaseMode::Sensitive
            } else {
                return Err(self.error_at(p, "`case-insensitive` or `case-sensitive`"));
            };
            let end = match self.expect_punct(p + 1, ";", "`;`") {
                Ok(v) => v,
                Err(d) => return Err(d),
            };
            ast.keywords_case = Some(Spanned::new(value, self.span(p, p + 1)));
            Ok(end)
        } else if self.is_word(pos, "recover") {
            let (rule, p) = match self.expect_ident(pos + 1, "a rule name") {
                Ok(v) => v,
                Err(d) => return Err(d),
            };
            let p = match self.expect_word(p, "sync", "`sync`") {
                Ok(q) => q,
                Err(d) => return Err(d),
            };
            let (sync, q) = match self.alt(p) {
                Ok(v) => v,
                Err(d) => return Err(d),
            };
            let end = match self.expect_punct(q, ";", "`;`") {
                Ok(v) => v,
                Err(d) => return Err(d),
            };
            ast.recovers.push(RecoverDef { rule, sync, span: self.span(pos, end) });
            Ok(end)
        } else if self.is_word(pos, "allow") {
            let (lint, p) = match self.expect_ident(pos + 1, "a lint name") {
                Ok(v) => v,
                Err(d) => return Err(d),
            };
            let p = match self.expect_word(p, "in", "`in`") {
                Ok(q) => q,
                Err(d) => return Err(d),
            };
            let (rule, p) = match self.expect_ident(p, "a rule name") {
                Ok(v) => v,
                Err(d) => return Err(d),
            };
            let end = match self.expect_punct(p, ";", "`;`") {
                Ok(v) => v,
                Err(d) => return Err(d),
            };
            ast.allows.push(AllowDef { lint, rule, span: self.span(pos, end) });
            Ok(end)
        } else if self.is_word(pos, "reserved") || self.is_word(pos, "guard") {
            let reserved = self.is_word(pos, "reserved");
            let p = match self.expect_word(pos + 1, "from", "`from`") {
                Ok(q) => q,
                Err(d) => return Err(d),
            };
            let (token, p) = match self.expect_ident(p, "a token name") {
                Ok(v) => v,
                Err(d) => return Err(d),
            };
            let (words, end) = match self.word_list(p) {
                Ok(v) => v,
                Err(d) => return Err(d),
            };
            if reserved {
                ast.reserved.push(ReservedDef { token, words, span: self.span(pos, end) });
            } else {
                ast.guards.push(GuardDef { token, words, span: self.span(pos, end) });
            }
            Ok(end)
        } else {
            Err(self.error_at(pos, "a declaration"))
        }
    }

    /// Parses every item of the file.
    #[verifier::spinoff_prover]
    #[verifier::rlimit(40)]
    fn file(&self) -> (r: Result<Ast, Diagnostic>)
        ensures
            r matches Ok(ast) ==> items_in(ast, self.file),
            r matches Err(d) ==> located_in(d, self.file),
            self.toks@.len() == 0 ==> (r matches Ok(ast) && ast.is_blank()),
    {
        let mut ast = Ast::blank();
        let mut pos: usize = 0;
        while pos < self.toks.len()
            invariant
                pos <= self.toks@.len(),
                items_in(ast, self.file),
                self.toks@.len() == 0 ==> ast.is_blank(),
            decreases self.toks@.len() - pos,
        {
            if self.is_word(pos, "precedence") {
                let (block, q) = match self.precedence(pos) {
                    Ok(v) => v,
                    Err(d) => return Err(d),
                };
                ast.precedence.push(block);
                pos = q;
            } else if self.is_word(pos, "skip") {
                let (name, body, q) = match self.named_body(pos, "a skip name") {
                    Ok(v) => v,
                    Err(d) => return Err(d),
                };
                ast.skips.push(SkipDef { name, body, span: self.span(pos, q) });
                pos = q;
            } else if self.is_word(pos, "boundary") {
                let (token, body, q) = match self.named_body(pos, "a token name") {
                    Ok(v) => v,
                    Err(d) => return Err(d),
                };
                ast.boundaries.push(BoundaryDef { token, body, span: self.span(pos, q) });
                pos = q;
            } else if self.is_word(pos, "token") {
                let (t, q) = match self.token_def(pos) {
                    Ok(v) => v,
                    Err(d) => return Err(d),
                };
                ast.tokens.push(t);
                pos = q;
            } else if self.is_word(pos, "rule") || (self.is_word(pos, "silent") && self.is_word(
                pos + 1,
                "rule",
            )) {
                let silent = self.is_word(pos, "silent") && self.is_word(pos + 1, "rule");
                let at = if silent { pos + 1 } else { pos };
                let (rd, q) = match self.rule_def(pos, at, silent) {
                    Ok(v) => v,
                    Err(d) => return Err(d),
                };
                ast.rules.push(rd);
                pos = q;
            } else if self.is_word(pos, "expect") {
                let (e, q) = match self.expect_def(pos) {
                    Ok(v) => v,
                    Err(d) => return Err(d),
                };
                ast.expects.push(e);
                pos = q;
            } else {
                pos = match self.simple_item(pos, &mut ast) {
                    Ok(q) => q,
                    Err(d) => return Err(d),
                };
            }
        }
        Ok(ast)
    }
}

/// Parses one file's text into an [`Ast`].
///
/// Imports are recorded but not followed. A syntax error is reported as a
/// single diagnostic located in `file`; on success every item is located in
/// `file`. Text that does not lex fails with the lexer's message; text with
/// no tokens at all (only blanks and comments) is an empty grammar.
pub fn parse_file(sm: &SourceMap, file: FileId) -> (r: Result<Ast, Errors>)
    requires
        sm.has(file),
    ensures
        r matches Ok(ast) ==> items_in(ast, file),
        r matches Err(e) ==> e.0@.len() == 1 && located_in(e.0@[0], file),
        r is Ok ==> lex_spec(sm.text_of(file)) is Ok,
        lex_spec(sm.text_of(file)) matches Err((f, lo, hi)) ==> (r matches Err(e) && e.0@[0].message@
            == crate::syntax::lex::fail_message(f)),
        lex_spec(sm.text_of(file)) matches Ok(ts) && ts.len() == 0 ==> (r matches Ok(ast) && ast.is_blank()),
{
    let chars = chars_of(sm.text(file));
    let end = crate::syntax::lex::end_offset(&chars);
    match lex(&chars, file) {
        Err(d) => Err(Errors::single(d)),
        Ok(toks) => {
            let p = Parser { toks, file, end };
            match p.file() {
                Ok(ast) => Ok(ast),
                Err(d) => Err(Errors::single(d)),
            }
        },
    }
}

/// Parses `.nh` text that does not come from disk, adding it to `sm` under
/// `name` (used only in diagnostics).
pub fn parse_source(sm: &mut SourceMap, name: &str, text: &str) -> (r: Result<Ast, Errors>)
    requires
        old(sm)@.len() < u32::MAX,
    ensures
        final(sm)@ == old(sm)@.push((name@, text@)),
        r matches Ok(ast) ==> items_in(ast, FileId(old(sm)@.len() as u32)),
        r matches Err(e) ==> e.0@.len() == 1 && located_in(e.0@[0], FileId(old(sm)@.len() as u32)),
        r is Ok ==> lex_spec(text@) is Ok,
        lex_spec(text@) matches Err((f, lo, hi)) ==> (r matches Err(e) && e.0@[0].message@
            == crate::syntax::lex::fail_message(f)),
        lex_spec(text@) matches Ok(ts) && ts.len() == 0 ==> (r matches Ok(ast) && ast.is_blank()),
{
    let id = sm.add(name, text);
    parse_file(sm, id)
}

} // verus!
