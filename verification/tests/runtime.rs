use nailhammer::runtime::ctx::Ctx;
use nailhammer::runtime::diagnostic::Diagnostic;
use nailhammer::runtime::error::Error;
use nailhammer::runtime::name::Name;
use nailhammer::runtime::node::{tagged, tagged_all, Ident, Node, Pair};
use nailhammer::runtime::ops::{build, Assoc, BuildError, Fixity, OpInfo, OpTree, Part};
use nailhammer::runtime::shared::Shared;
use nailhammer::runtime::source::{FileId, LineCol, SourceMap, Span};

fn ctx() -> (Ctx, Span) {
    let mut sm = SourceMap::new();
    let f = sm.add("t.txt", "let x = a + 1;\n");
    (Ctx::new(sm), Span::new(f, 8, 13))
}

#[test]
fn errors_pick_up_the_innermost_span() {
    let (mut cx, span) = ctx();
    let e: Error = cx.scoped(span, |cx| cx.err::<()>("type mismatch")).unwrap_err();
    let out = cx.render(&e);
    assert!(out.contains("t.txt:1:9"), "{out}");
    assert!(out.contains("type mismatch"), "{out}");
}

#[test]
fn spans_pop_even_when_the_body_fails() {
    let (mut cx, span) = ctx();
    let _ = cx.scoped(span, |cx| cx.err::<()>("boom"));
    assert_eq!(cx.span(), None, "the stack must unwind");
}

#[test]
fn an_explicit_span_is_not_overwritten_by_the_stack() {
    let (mut cx, span) = ctx();
    let other = Span::new(span.file, 0, 3);
    cx.scoped(span, |cx| {
        cx.report(Diagnostic::error("explicit").at(other));
    });
    assert_eq!(cx.diagnostics()[0].span, Some(other));
}

#[test]
fn a_signal_is_recognised_by_its_label() {
    let e = Error::signal("break");
    assert!(e.is_signal("break"));
    assert!(!e.is_signal("continue"), "labels must not collide");
    assert!(!Error::runtime("boom").is_signal("break"));
    assert!(!Error::AlreadyReported.is_signal("break"));
}

#[test]
fn a_signal_carries_a_location() {
    let span = Span::new(FileId(0), 3, 8);
    let e = Error::signal("return").at(span);
    assert!(matches!(e, Error::Signal { span: Some(s), .. } if s == span));
}

#[test]
fn an_uncaught_signal_says_which_one_it_was() {
    assert_eq!(Error::signal("break").to_string(), "`break` here has nothing to jump to");
}

#[test]
fn a_name_keeps_both_spellings() {
    let n = Name::new("COUNTER", Span::new(FileId(0), 0, 7));
    assert_eq!(n.text(), "COUNTER", "diagnostics get what was typed");
    assert_eq!(n.key(), "counter", "lookups get the folded form");
}

#[test]
fn folding_leaves_non_ascii_alone() {
    let n = Name::new("Straße", Span::new(FileId(0), 0, 7));
    assert_eq!(n.key(), "straße");
}

#[test]
fn it_constructs_and_derefs() {
    let s: Shared<String> = Shared::new("x".into());
    assert_eq!(&*s, "x");
    assert_eq!(Shared::strong_count(&s), 1);
}

#[test]
fn line_col_is_one_based_and_counts_chars() {
    let mut sm = SourceMap::new();
    let f = sm.add("a.txt", "let x = 1;\nlet ü = 2;\n");
    assert_eq!(sm.line_col(Span::new(f, 0, 1)), LineCol { line: 1, col: 1 });
    assert_eq!(sm.line_col(Span::new(f, 11, 14)), LineCol { line: 2, col: 1 });
    // 'ü' is two bytes; the column after it must be 6, not 7.
    assert_eq!(sm.line_col(Span::new(f, 17, 18)).col, 6);
}

#[test]
fn source_line_text_strips_the_newline() {
    let mut sm = SourceMap::new();
    let f = sm.add("a.txt", "one\ntwo\r\nthree");
    assert_eq!(sm.line_text(Span::new(f, 4, 5)), "two");
}

#[test]
fn report_and_fail_records_once() {
    let (mut cx, span) = ctx();
    cx.enter(span);
    let r: Result<(), Error> = cx.report_and_fail(Diagnostic::error("bad"));
    assert!(matches!(r, Err(Error::AlreadyReported)));
    assert!(cx.has_errors());
    assert_eq!(cx.diagnostics()[0].span, Some(span));
    assert_eq!(cx.text(), "a + 1");
    cx.leave();
    assert_eq!(cx.render(&Error::AlreadyReported), "");
    assert!(cx.render_all().contains("error: bad"));
}

fn leaf(tag: Option<&str>, text: &str, start: usize) -> Pair<u8> {
    Pair {
        rule: 1,
        tag: tag.map(|t| t.to_string()),
        text: text.to_string(),
        start,
        end: start + text.len(),
        children: Vec::new(),
    }
}

#[test]
fn tags_are_read_from_direct_children_only() {
    let mut inner = leaf(Some("name"), "deep", 4);
    inner.children.push(leaf(Some("name"), "deeper", 5));
    let pair = Pair {
        rule: 0,
        tag: None,
        text: "a deep b".to_string(),
        start: 0,
        end: 8,
        children: vec![leaf(Some("x"), "a", 0), inner, leaf(Some("x"), "b", 7)],
    };
    assert_eq!(tagged(&pair, "name").unwrap().text, "deep");
    assert_eq!(tagged_all(&pair, "x").len(), 2);
    assert!(tagged(&pair, "nothing").is_none());
    let node = Node::new(&pair, FileId(2));
    assert_eq!(node.tagged_all("x")[1].text(), "b");
    assert_eq!(node.children().len(), 3);
    assert_eq!(node.span(), Span::new(FileId(2), 0, 8));
    let id = Ident::new(node.tagged("name").unwrap());
    assert_eq!(id.text(), "deep");
    assert_eq!(Ident::new(Node::new(&leaf(None, "ABC", 0), FileId(0))).key(), "abc");
}

fn part(item: &'static str, info: Option<OpInfo>, prefix: Option<OpInfo>) -> Part<&'static str> {
    Part { item, text: format!(" {item} "), info, prefix }
}

fn infix(precedence: u16, assoc: Assoc) -> Option<OpInfo> {
    Some(OpInfo { precedence, fixity: Fixity::Infix, assoc })
}

fn flatten(t: &OpTree<&'static str>, out: &mut Vec<&'static str>) {
    match t {
        OpTree::Atom(p) => out.push(p),
        OpTree::Prefix { op, operand } => {
            out.push(op);
            flatten(operand, out);
        }
        OpTree::Postfix { op, operand } => {
            flatten(operand, out);
            out.push(op);
        }
        OpTree::Infix { op, lhs, rhs } => {
            flatten(lhs, out);
            out.push(op);
            flatten(rhs, out);
        }
    }
}

#[test]
fn precedence_climbing_keeps_the_input_order() {
    let parts = vec![
        part("1", None, None),
        part("+", infix(1, Assoc::Left), None),
        part("2", None, None),
        part("*", infix(2, Assoc::Left), None),
        part("3", None, None),
    ];
    let t = build(parts).unwrap();
    let mut out = Vec::new();
    flatten(&t, &mut out);
    assert_eq!(out, vec!["1", "+", "2", "*", "3"]);
    match &t {
        OpTree::Infix { op, rhs, .. } => {
            assert_eq!(*op, "+");
            assert!(matches!(**rhs, OpTree::Infix { op: "*", .. }));
        }
        _ => panic!("expected `+` at the root"),
    }
    assert!(matches!(build::<&str>(Vec::new()), Err(BuildError::MissingOperand)));
    let bad = vec![part("+", infix(1, Assoc::Left), None)];
    assert_eq!(build(bad).unwrap_err(), BuildError::UnexpectedOperator("+".to_string()));
}
