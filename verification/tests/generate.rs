use nailhammer::codegen::{ast, diagnostics, place, run, stubs, views};
use nailhammer::lower::{lower, Lowered};
use nailhammer::operators::resolve;
use nailhammer::syntax::parse_source;
use nailhammer::syntax::source::SourceMap;

fn lowered_of(source: &str) -> Lowered {
    let mut sm = SourceMap::new();
    let tree = parse_source(&mut sm, "<test>", source).unwrap_or_else(|e| panic!("{}", e.render(&sm)));
    let table = resolve(&tree, &mut sm).unwrap_or_else(|e| panic!("{}", e.render(&sm)));
    lower(&tree, &table).unwrap_or_else(|e| panic!("{}", e.render(&sm)))
}

const BASIC: &str = r#"
grammar T;
use operators::none;
skip WS = " ";
token ALPHA = @ "a".."z";
token DIGIT = @ "0".."9";
token IDENT = @ ALPHA (ALPHA | DIGIT)*;
rule atom = item;
rule item
  = name:IDENT              -> named place
  | first:IDENT rest:IDENT* -> many
  | maybe:IDENT?            -> opt
  ;
"#;

const AST: &str = r#"
grammar A;
use operators::core;
keywords case-insensitive;
skip WS = " ";
token DIGIT = @ "0".."9";
token ALPHA = @ "a".."z";
token NUMBER = @ DIGIT+;
token IDENT = @ case-insensitive ALPHA+;
rule program = SOI lines:line* EOI -> doc;
rule line = body:stmt -> line;
rule stmt
  = "let" name:IDENT "=" value:expr ";"      -> bind
  | "loop" lazy body:line* "end"             -> repeat
  | value:expr ";"                           -> eval
  ;
rule atom = primary;
rule primary
  = digits:NUMBER      -> num
  | "(" inner:expr ")" -> pass
  ;
"#;

#[test]
fn place_variants_come_from_place_marked_alternatives() {
    let place = place::generate(&lowered_of(BASIC));
    assert!(place.contains("ItemNamed {"), "{place}");
    assert!(!place.contains("ItemMany {"), "only `place` alternatives:\n{place}");
    assert!(place.contains("DO NOT EDIT"), "{place}");
}

#[test]
fn rules_without_handlers_delegate_to_their_only_child() {
    let ast = ast::generate(&lowered_of(BASIC));
    assert!(ast.contains("(Some(only), None) => Ok(only)"), "{ast}");
    assert!(ast.contains("add a `-> label`"), "{ast}");
}

#[test]
fn a_lazy_binding_becomes_storable_owned_data() {
    let ast = ast::generate(&lowered_of(AST));
    assert!(ast.contains("pub body: Vec<Shared<Line>>,"), "a lazy repetition must be owned and shareable:\n{ast}");
    assert!(!ast.contains("Deferred"), "no borrowed handle survives:\n{ast}");
    assert!(!ast.contains("'i"), "and no lifetime:\n{ast}");
}

#[test]
fn a_choice_rule_is_an_enum_of_its_alternatives() {
    let ast = ast::generate(&lowered_of(AST));
    assert!(ast.contains("pub enum Stmt {"), "{ast}");
    for v in ["Bind(Shared<StmtBind>),", "Repeat(Shared<StmtRepeat>),", "Eval(Shared<StmtEval>),"] {
        assert!(ast.contains(v), "missing `{v}`:\n{ast}");
    }
    assert!(ast.contains("pub struct StmtBind {"), "{ast}");
}

#[test]
fn an_alias_rule_becomes_a_type_alias() {
    let ast = ast::generate(&lowered_of(AST));
    assert!(ast.contains("pub type Atom = Primary;"), "{ast}");
}

#[test]
fn a_transparent_alternative_is_typed_by_what_it_yields() {
    let ast = ast::generate(&lowered_of(AST));
    assert!(ast.contains("Expr(Shared<Expr>),"), "{ast}");
}

#[test]
fn expressions_are_folded_into_the_ast() {
    let ast = ast::generate(&lowered_of(AST));
    assert!(ast.contains("pub enum Expr {"), "{ast}");
    assert!(ast.contains("Infix { lhs: Shared<Expr>, op: OpKind, rhs: Shared<Expr>, span: Span },"), "{ast}");
    assert!(ast.contains("Atom(Shared<Primary>),"), "the atom rule resolves through its alias:\n{ast}");
}

#[test]
fn a_folding_token_becomes_an_owned_name() {
    let ast = ast::generate(&lowered_of(AST));
    assert!(ast.contains("pub name: Name,"), "{ast}");
    let plain = ast::generate(&lowered_of(BASIC));
    assert!(plain.contains("use nh_runtime::Span;"), "a grammar with no folding token must not import `Name`:\n{plain}");
}

#[test]
fn a_recovering_rule_gets_an_error_variant() {
    let ast = ast::generate(&lowered_of(&AST.replace("rule atom = primary;", "recover line sync \";\";\nrule atom = primary;")));
    assert!(ast.contains("Error(Span),"), "{ast}");
}

#[test]
fn a_place_resolver_reads_the_span_of_every_place() {
    let place = place::generate(&lowered_of(BASIC));
    assert!(place.contains("pub enum Place"), "{place}");
    assert!(place.contains("Place::ItemNamed"), "{place}");
}

const DOCS: &str = r#"
grammar D;
use operators::core;
skip WS = " ";
token DIGIT = @ "0".."9";
token ALPHA = @ "a".."z";
token NUMBER = @ DIGIT+;
token IDENT = @ ALPHA+;
rule program = SOI stmts:stmt* EOI -> doc;
rule stmt = "let" name:IDENT "=" value:expr ";" -> bind;
rule atom = primary;
rule primary = digits:NUMBER -> num;
"#;

fn stub_for(source: &str, rule: &str) -> String {
    let l = lowered_of(source);
    let alt = l.alternatives.iter().find(|a| a.pest_rule == rule).expect("the alternative");
    stubs::generate(alt, "crate::generated", false)
}

#[test]
fn a_stub_receives_its_bindings_as_parameters() {
    let stub = stub_for(DOCS, "stmt");
    assert!(
        stub.contains("pub fn run<H: Handlers>(host: &mut H, name: &str, value: H::Out, cx: &mut Ctx) -> Result<H::Out>"),
        "bindings must arrive as parameters, in grammar order:\n{stub}"
    );
    for absent in ["view", "into_pair", "dispatch(", "View<"] {
        assert!(!stub.contains(absent), "a stub should never mention `{absent}`:\n{stub}");
    }
    assert!(stub.contains("compile_error!"), "{stub}");
    assert!(stub.contains(r#"//! "let" name:IDENT "=" value:expr ";" -> bind"#), "{stub}");
    assert!(stub.contains(stubs::UNIMPLEMENTED_MARKER), "{stub}");
}

#[test]
fn every_parameter_is_documented_by_kind() {
    let stub = stub_for(DOCS, "stmt");
    assert!(stub.contains("/// * `name` — the text of the `IDENT` token"), "{stub}");
    assert!(stub.contains("/// * `value` — the value of the `expr` rule, already evaluated"), "{stub}");
}

#[test]
fn a_lazy_binding_arrives_unevaluated() {
    let src = DOCS.replace(
        r#"rule stmt = "let" name:IDENT "=" value:expr ";" -> bind;"#,
        r#"rule stmt = "when" cond:expr lazy body:stmt -> iff;"#,
    );
    let stub = stub_for(&src, "stmt");
    assert!(stub.contains("body: &Shared<Stmt>"), "a lazy binding must not be evaluated for the handler:\n{stub}");
    assert!(stub.contains("use nh_runtime::Shared;"), "{stub}");
    assert!(stub.contains("use crate::generated::ast::Stmt;"), "{stub}");
    assert!(stub.contains("use crate::generated::dispatch::{Eval, Handlers};"), "{stub}");
    assert!(stub.contains("**unevaluated**"), "the doc must say so:\n{stub}");
}

#[test]
fn a_stub_imports_only_what_it_uses() {
    let stub = stub_for(DOCS, "primary");
    assert!(stub.contains("use crate::generated::dispatch::Handlers;"), "{stub}");
    assert!(!stub.contains("use nh_runtime::Shared;"), "{stub}");
    assert!(!stub.contains("Emitter"), "{stub}");
}

#[test]
fn a_vm_project_stub_brings_the_emitter_in() {
    let l = lowered_of(DOCS);
    let alt = l.alternatives.iter().find(|a| a.pest_rule == "primary").unwrap();
    let stub = stubs::generate(alt, "crate::generated", true);
    assert!(stub.contains("use nh_runtime::{Ctx, Result};\nuse nh_vm::Emitter;\n"), "{stub}");
}

#[test]
fn a_wide_stub_allows_many_arguments() {
    let wide = BASIC.replace(
        "  | maybe:IDENT?            -> opt",
        "  | a:IDENT b:IDENT c:IDENT d:IDENT e:IDENT f:IDENT -> wide",
    );
    assert!(stub_for(&wide, "item_wide").contains("#[allow(clippy::too_many_arguments)]"));
    assert!(!stub_for(&wide, "item_named").contains("too_many_arguments"));
}

#[test]
fn the_handler_module_lists_every_alternative_in_order() {
    let m = stubs::generate_mod(&lowered_of(BASIC));
    assert!(m.starts_with("// Generated by NailHammer. DO NOT EDIT.\n"), "{m}");
    assert!(m.ends_with("pub mod item_many;\npub mod item_named;\npub mod item_opt;\n"), "{m}");
}

#[test]
fn run_starts_at_the_first_rule() {
    let r = run::generate(&lowered_of(DOCS), "crate::parser::DParser", "crate::generated");
    assert!(r.contains("use crate::generated::{ast, diagnostics, dispatch};"), "{r}");
    assert!(r.contains("crate::parser::DParser::parse(crate::parser::Rule::program, &text)"), "{r}");
    assert!(r.contains("let outcome = ast::build_program(node, file)"), "{r}");
    assert!(r.contains("dispatch::eval_program(host, &tree, cx)"), "{r}");
}

#[test]
fn an_entry_rule_that_builds_nothing_is_a_build_error() {
    let src = "grammar N;\nskip WS = \" \";\ntoken ALPHA = @ \"a\"..\"z\";\n\
               rule top = item;\nrule item = name:ALPHA -> named;\n";
    let r = run::generate(&lowered_of(src), "crate::P", "crate::generated");
    assert!(r.contains("compile_error!"), "{r}");
    assert!(r.contains("the entry rule `top` produces no node"), "{r}");
    assert!(!r.contains("eval_source"), "{r}");
}

#[test]
fn a_parser_without_a_module_finds_rule_in_the_crate() {
    let d = diagnostics::generate(&lowered_of(DOCS), "DParser");
    assert!(d.contains("use crate::Rule;"), "{d}");
    let d = diagnostics::generate(&lowered_of(DOCS), "crate::a::b::DParser");
    assert!(d.contains("use crate::a::b::Rule;"), "{d}");
}

#[test]
fn expectations_become_descriptions_and_recoveries_become_errors() {
    let src = AST.replace(
        "rule atom = primary;",
        "recover line sync \";\";\nexpect \"(\" in primary as \"an opening parenthesis\";\nrule atom = primary;",
    );
    let d = diagnostics::generate(&lowered_of(&src), "crate::P");
    assert!(d.contains("=> Some(\"an opening parenthesis\"),"), "{d}");
    assert!(d.contains("could not parse this `line`"), "{d}");
    let plain = diagnostics::generate(&lowered_of(BASIC), "crate::P");
    assert!(plain.contains("This grammar declares no `expect` labels."), "{plain}");
    assert!(plain.contains("This grammar declares no `recover` rules, so nothing recovers."), "{plain}");
}

fn views_of(source: &str) -> String {
    views::generate(&lowered_of(source), "crate::parser::P")
}

#[test]
fn accessor_shapes_follow_cardinality() {
    let views = views_of(BASIC);
    assert!(views.contains("pub fn name(&self) -> Node<'i, Rule>"), "{views}");
    assert!(views.contains("pub fn rest(&self) -> Vec<Node<'i, Rule>>"), "{views}");
    assert!(views.contains("pub fn maybe(&self) -> Option<Node<'i, Rule>>"), "{views}");
}

#[test]
fn key_is_generated_only_for_case_insensitive_tokens() {
    assert!(!views_of(BASIC).contains("Ident<'i, Rule>"), "a case-sensitive grammar must not offer `.key()`");
    let folding = views_of(&BASIC.replace(
        "token IDENT = @ ALPHA (ALPHA | DIGIT)*;",
        "keywords case-insensitive;\ntoken IDENT = @ case-insensitive ALPHA (ALPHA | DIGIT)*;",
    ));
    assert!(folding.contains("Ident<'i, Rule>"), "a folding grammar must offer `.key()`");
}

#[test]
fn a_binding_may_shadow_a_built_in_view_method() {
    let views = views_of(&BASIC.replace("name:IDENT", "text:IDENT"));
    assert!(views.contains("impl<'i> View<'i, Rule> for"), "{views}");
    assert!(views.contains("pub fn text(&self) -> Node<'i, Rule>"), "the binding's accessor must be inherent:\n{views}");
}

#[test]
fn a_view_quotes_its_grammar_alternative() {
    let views = views_of(DOCS);
    assert!(views.contains(r#"/// "let" name:IDENT "=" value:expr ";" -> bind"#), "the view should quote its own grammar:\n{views}");
}

#[test]
fn accessor_docs_distinguish_a_token_from_a_rule() {
    let views = views_of(DOCS);
    assert!(views.contains("`name` — the `IDENT` token"), "{views}");
    assert!(views.contains("`value` — the `expr` rule"), "{views}");
    assert!(views.contains("the text of the `IDENT` token"), "{views}");
    assert!(views.contains("the value of the `expr` rule, already evaluated"), "{views}");
}

#[test]
fn an_accessor_names_the_parameter_it_feeds() {
    let views = views_of(DOCS);
    assert!(views.contains("/// `stmts: Vec<Self::Out>`:"), "an accessor should say which handler parameter it becomes:\n{views}");
    assert!(!views.contains("dispatch(host, view."), "views are mechanism; they should not teach a handler idiom:\n{views}");
}

#[test]
fn long_parameter_docs_are_wrapped_to_the_line() {
    let views = views_of(DOCS);
    // The repeated-value doc is longer than a line, so it continues on a
    // second doc line and no line of the file runs past 74 bytes.
    assert!(
        views.contains("/// the value of the `stmt` rule, already evaluated (repeated in the\n    /// grammar; items that failed and were already reported are omitted)"),
        "{views}"
    );
    for line in views.lines().filter(|l| l.trim_start().starts_with("/// the value")) {
        assert!(line.len() <= 74, "{line}");
    }
    assert!(views.contains("pub struct ExprView<'i>"), "the table produced an `expr`:\n{views}");
    assert!(views.contains("use crate::parser::Rule;"), "{views}");
}
