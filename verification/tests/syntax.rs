use nailhammer::syntax::error::{Diagnostic, Errors};
use nailhammer::syntax::source::{LineCol, SourceMap, Span};
use nailhammer::syntax::{parse_source, render};

#[test]
fn line_col_is_one_based() {
    let mut sm = SourceMap::new();
    let f = sm.add("a.nh", "grammar A;\nrule x = y;\n");
    assert_eq!(sm.line_col(Span::new(f, 0, 1)), LineCol { line: 1, col: 1 });
    assert_eq!(sm.line_col(Span::new(f, 11, 15)), LineCol { line: 2, col: 1 });
    assert_eq!(sm.line_col(Span::new(f, 16, 17)), LineCol { line: 2, col: 6 });
}

#[test]
fn columns_count_chars_not_bytes() {
    let mut sm = SourceMap::new();
    // 'ü' is two bytes; the column after it must be 2, not 3.
    let f = sm.add("a.nh", "ü=1");
    assert_eq!(sm.line_col(Span::new(f, 2, 3)).col, 2);
}

#[test]
fn line_text_strips_the_newline() {
    let mut sm = SourceMap::new();
    let f = sm.add("a.nh", "one\ntwo\r\nthree");
    assert_eq!(sm.line_text(Span::new(f, 4, 5)), "two");
    assert_eq!(sm.line_text(Span::new(f, 9, 10)), "three");
}

#[test]
fn render_points_at_the_right_column() {
    let mut sm = SourceMap::new();
    let f = sm.add("a.nh", "grammar A;\nrule x = y;\n");
    let d = Diagnostic::error("undefined rule `y`").at(Span::new(f, 20, 21));
    let out = d.render(&sm);
    assert!(out.contains("a.nh:2:10"), "{out}");
    assert!(out.contains("2 | rule x = y;"), "{out}");
    assert!(out.contains("         ^"), "{out}");
}

#[test]
fn caret_does_not_run_past_end_of_line() {
    let mut sm = SourceMap::new();
    let f = sm.add("a.nh", "ab\n");
    // Span deliberately longer than the line.
    let d = Diagnostic::error("boom").at(Span::new(f, 0, 99));
    let out = d.render(&sm);
    let caret_line = out.lines().last().unwrap();
    assert_eq!(caret_line.matches('^').count(), 2, "{out}");
}

#[test]
fn a_whole_grammar_parses() {
    let src = "grammar Calc;\n\
               use operators::core;\n\
               skip WHITESPACE = \" \" | \"\\t\";\n\
               token DIGIT  = @ \"0\"..\"9\";\n\
               token NUMBER = @ DIGIT+ (\".\" DIGIT+)?;\n\
               token IDENT = @ case-insensitive (\"a\"..\"z\" | \"_\")+;\n\
               reserved from IDENT { \"let\" \"print\" }\n\
               rule program = SOI stmts:stmt* EOI -> doc;\n\
               rule stmt = \"let\" name:IDENT \"=\" value:expr \";\" -> bind\n\
                 | \"print\" lazy value:expr \";\" -> print;\n\
               rule atom = value:NUMBER -> num | name:IDENT -> var place | \"(\" inner:expr \")\" -> pass;\n\
               recover stmt sync \";\";\n\
               allow shadowing in stmt;\n\
               expect \")\" in atom.pass as \"a closing parenthesis\";\n";
    let mut sm = SourceMap::new();
    let ast = match parse_source(&mut sm, "calc.nh", src) {
        Ok(a) => a,
        Err(e) => panic!("{}", e.render(&sm)),
    };
    assert_eq!(ast.grammar_name.as_ref().unwrap().value, "Calc");
    assert_eq!(ast.uses.len(), 1);
    assert_eq!(ast.tokens.len(), 3);
    assert!(ast.tokens[2].atomic && ast.tokens[2].case_insensitive);
    assert_eq!(ast.reserved[0].words.len(), 2);
    assert_eq!(ast.rules.len(), 3);
    assert_eq!(ast.rules[1].alternatives.len(), 2);
    assert!(ast.rules[2].alternatives[1].place);
    assert!(ast.rules[2].alternatives[2].is_pass());
    assert_eq!(ast.recovers.len(), 1);
    assert_eq!(ast.allows.len(), 1);
    assert_eq!(ast.expects[0].target.len(), 2);
    let printed = render(&ast);
    assert!(printed.contains("rule stmt\n  = \"let\" name:IDENT \"=\" value:expr \";\" -> bind"), "{printed}");
    assert!(printed.contains("token IDENT = @ case-insensitive"), "{printed}");
}

#[test]
fn a_syntax_error_is_located() {
    let mut sm = SourceMap::new();
    let r = parse_source(&mut sm, "bad.nh", "grammar A;\nrule x = ;\n");
    let e: Errors = match r {
        Ok(_) => panic!("must not parse"),
        Err(e) => e,
    };
    let out = e.render(&sm);
    assert!(out.contains("bad.nh:2:10"), "{out}");
    assert!(out.contains("expected an expression"), "{out}");
}

#[test]
fn a_bad_escape_and_an_unterminated_string_are_errors() {
    let mut sm = SourceMap::new();
    assert!(parse_source(&mut sm, "s.nh", "rule x = \"abc;\n").is_err());
    assert!(parse_source(&mut sm, "t.nh", "rule x = \"a\\u{41}\";\n").is_ok());
}

#[test]
fn a_precedence_block_renders_entry_by_entry() {
    let src = "grammar G;\n\nprecedence override {\n  atom a;\n  remove \"*\" word \"MOD\";\n  \
               left \"+\" | \"-\" above \"*\" lazy(rhs, lhs) -> add;\n}\n\n";
    let mut sm = SourceMap::new();
    let ast = match parse_source(&mut sm, "g.nh", src) {
        Ok(a) => a,
        Err(e) => panic!("{}", e.render(&sm)),
    };
    assert_eq!(render(&ast), src);
}

#[test]
fn rendering_parenthesises_by_binding_strength() {
    let src = "grammar G;\n\nrule r\n  = (\"a\" | \"b\") \"c\" -> one\n  | (\"d\" \"e\")* !Y z:Z -> two place\n  ;\n\n";
    let mut sm = SourceMap::new();
    let ast = match parse_source(&mut sm, "g.nh", src) {
        Ok(a) => a,
        Err(e) => panic!("{}", e.render(&sm)),
    };
    assert_eq!(render(&ast), src);
}
