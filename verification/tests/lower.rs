use nailhammer::lower::names::{symbolic, Allocator};
use nailhammer::lower::pest_syntax::{char_range, group, string};
use nailhammer::lower::resolve::DefKind;
use nailhammer::lower::{lower, Binding, Cardinality, Lowered, LoweredVariant, RuleShape};
use nailhammer::operators::resolve;
use nailhammer::syntax::parse_source;
use nailhammer::syntax::source::SourceMap;

fn build_str(source: &str) -> Lowered {
    let mut sm = SourceMap::new();
    let ast = parse_source(&mut sm, "<test>", source).unwrap_or_else(|e| panic!("{}", e.render(&sm)));
    let table = match resolve(&ast, &mut sm) {
        Ok(t) => t,
        Err(e) => panic!("operator table failed:\n{}", e.render(&sm)),
    };
    match lower(&ast, &table) {
        Ok(l) => l,
        Err(e) => panic!("lowering failed:\n{}", e.render(&sm)),
    }
}

fn lower_err(source: &str) -> String {
    let mut sm = SourceMap::new();
    let ast = parse_source(&mut sm, "<test>", source).unwrap_or_else(|e| panic!("{}", e.render(&sm)));
    let table = match resolve(&ast, &mut sm) {
        Ok(t) => t,
        Err(e) => return e.render(&sm),
    };
    match lower(&ast, &table) {
        Ok(_) => panic!("expected lowering to fail"),
        Err(e) => e.render(&sm),
    }
}

fn binding<'a>(l: &'a Lowered, label: &str, name: &str) -> &'a Binding {
    l.alternatives
        .iter()
        .find(|a| a.label == label)
        .unwrap_or_else(|| panic!("no alternative labelled `{label}`"))
        .bindings
        .iter()
        .find(|b| b.name == name)
        .unwrap_or_else(|| panic!("no binding `{name}` on `{label}`"))
}

#[test]
fn symbolic_names_are_readable() {
    assert_eq!(symbolic("+"), "plus");
    assert_eq!(symbolic("+="), "plus_eq");
    assert_eq!(symbolic("<<"), "lt_lt");
    assert_eq!(symbolic("<="), "lt_eq");
    assert_eq!(symbolic("AND"), "and");
    assert_eq!(symbolic("|>"), "pipe_gt");
}

#[test]
fn allocator_disambiguates() {
    let mut a = Allocator::new();
    assert_eq!(a.allocate("nh_op_eq"), "nh_op_eq");
    assert_eq!(a.allocate("nh_op_eq"), "nh_op_eq_1");
    assert_eq!(a.allocate("nh_op_eq"), "nh_op_eq_2");
    a.reserve("x_1");
    assert_eq!(a.allocate("x"), "x");
    assert_eq!(a.allocate("x"), "x_2");
}

#[test]
fn strings_escape() {
    assert_eq!(string("let", false), "\"let\"");
    assert_eq!(string("AND", true), "^\"AND\"");
    // Folding a literal with no letters is a no-op, so no `^` is emitted.
    assert_eq!(string("=", true), "\"=\"");
    assert_eq!(string(" ", true), "\" \"");
    assert_eq!(string("a\"b", false), "\"a\\\"b\"");
    assert_eq!(string("\n", false), "\"\\n\"");
}

#[test]
fn ranges_use_single_quotes() {
    assert_eq!(char_range("a", "z").unwrap(), "'a'..'z'");
    assert_eq!(char_range("0", "9").unwrap(), "'0'..'9'");
    assert_eq!(char_range("ab", "z"), None);
}

#[test]
fn grouping_does_not_double_wrap() {
    assert_eq!(group("IDENT"), "IDENT");
    assert_eq!(group("(a | b)"), "(a | b)");
    assert_eq!(group("a ~ b"), "(a ~ b)");
    // Two separately-parenthesised terms still need an outer group.
    assert_eq!(group("(a) ~ (b)"), "((a) ~ (b))");
}

/// The prelude every transparent-alternative case shares.
const T: &str = "grammar T;\n\
                 use operators::none;\n\
                 skip WS = \" \" | \"\\t\";\n\
                 token EOL = @ \"\\n\";\n\
                 token ALPHA = @ \"a\"..\"z\";\n\
                 token ID = @ ALPHA+;\n";

fn transparent_err(rules: &str) -> String {
    lower_err(&format!("{T}{rules}"))
}

fn transparent_ok(rules: &str) {
    build_str(&format!("{T}{rules}"));
}

#[test]
fn a_token_counts_as_a_node() {
    let out = transparent_err(
        "rule program = SOI lines:line+ EOI -> prog;\n\
         rule line = body:stmt EOL+ -> pass;\n\
         rule stmt = v:ID -> s;\n",
    );
    assert!(out.contains("`-> pass`"), "{out}");
    assert!(out.contains("produces 2 or more nodes"), "{out}");
    assert!(out.contains("give this one a `-> label`"), "{out}");
}

#[test]
fn a_repetition_is_not_one_node() {
    let out = transparent_err(
        "rule program = body:many -> prog;\n\
         rule many = stmt*;\n\
         rule stmt = v:ID -> s;\n",
    );
    assert!(out.contains("no label"), "{out}");
    assert!(out.contains("produces 0 or more nodes"), "{out}");
}

#[test]
fn two_rules_are_two_nodes() {
    let out = transparent_err(
        "rule program = body:pair -> prog;\n\
         rule pair = stmt stmt;\n\
         rule stmt = v:ID -> s;\n",
    );
    assert!(out.contains("produces 2 nodes"), "{out}");
}

#[test]
fn an_optional_child_is_not_guaranteed() {
    let out = transparent_err(
        "rule program = body:maybe -> prog;\n\
         rule maybe = stmt?;\n\
         rule stmt = v:ID -> s;\n",
    );
    assert!(out.contains("produces between 0 and 1 nodes"), "{out}");
}

#[test]
fn literals_alone_produce_no_node() {
    let out = transparent_err(
        "rule program = body:word -> prog;\n\
         rule word = \"yes\" | \"no\";\n",
    );
    assert!(out.contains("produces no node"), "{out}");
}

#[test]
fn a_lone_token_has_no_handler_to_delegate_to() {
    let out = transparent_err("rule program = ID;\n");
    assert!(out.contains("produces only the token `ID`"), "{out}");
    assert!(out.contains("no node of its own"), "{out}");
}

#[test]
fn a_choice_of_different_rules_is_ambiguous() {
    let out = transparent_err(
        "rule program = body:either -> prog;\n\
         rule either = (stmt | decl);\n\
         rule stmt = v:ID -> s;\n\
         rule decl = \"let\" v:ID -> d;\n",
    );
    assert!(out.contains("may be any of"), "{out}");
    assert!(out.contains("stmt"), "{out}");
    assert!(out.contains("decl"), "{out}");
}

#[test]
fn an_alias_to_one_rule_is_fine() {
    transparent_ok(
        "rule program = body:atom -> prog;\n\
         rule atom = primary;\n\
         rule primary = v:ID -> p;\n",
    );
}

#[test]
fn literals_around_one_rule_are_still_one_node() {
    transparent_ok(
        "rule program = body:group -> prog;\n\
         rule group = \"(\" inner:stmt \")\" -> pass;\n\
         rule stmt = v:ID -> s;\n",
    );
}

#[test]
fn a_lookahead_contributes_no_node() {
    transparent_ok(
        "rule program = body:guarded -> prog;\n\
         rule guarded = !\"x\" inner:stmt -> pass;\n\
         rule stmt = v:ID -> s;\n",
    );
}

#[test]
fn repeated_literals_do_not_inflate_the_count() {
    transparent_ok(
        "rule program = body:padded -> prog;\n\
         rule padded = \",\"* inner:stmt \",\"* -> pass;\n\
         rule stmt = v:ID -> s;\n",
    );
}

#[test]
fn a_choice_yielding_the_same_rule_is_fine() {
    transparent_ok(
        "rule program = body:either -> prog;\n\
         rule either = (\"a\" stmt | \"b\" stmt);\n\
         rule stmt = v:ID -> s;\n",
    );
}

#[test]
fn a_silent_rule_is_seen_through() {
    transparent_ok(
        "rule program = body:wrapped -> prog;\n\
         rule wrapped = quiet;\n\
         silent rule quiet = stmt;\n\
         rule stmt = v:ID -> s;\n",
    );
}

#[test]
fn a_silent_rule_that_yields_several_nodes_is_caught() {
    let out = transparent_err(
        "rule program = body:wrapped -> prog;\n\
         rule wrapped = quiet;\n\
         silent rule quiet = stmt stmt;\n\
         rule stmt = v:ID -> s;\n",
    );
    assert!(out.contains("produces 2 nodes"), "{out}");
}

#[test]
fn a_recursive_silent_rule_terminates() {
    transparent_ok(
        "rule program = body:wrapped -> prog;\n\
         rule wrapped = quiet;\n\
         silent rule quiet = \"(\" quiet \")\" | stmt;\n\
         rule stmt = v:ID -> s;\n",
    );
}

fn card(rules: &str, label: &str, name: &str) -> Cardinality {
    let l = build_str(&format!(
        "grammar C;\n\
         use operators::none;\n\
         skip WS = \" \" | \"\\t\" | \"\\n\";\n\
         token ALPHA = @ \"a\"..\"z\";\n\
         token ID = @ ALPHA+;\n\
         token NUM = @ \"0\"..\"9\";\n\
         {rules}"
    ));
    binding(&l, label, name).cardinality
}

#[test]
fn a_name_bound_inside_and_outside_a_repetition_is_a_list() {
    assert_eq!(
        card("rule r = items:ID (\",\" items:ID)* -> list;\n", "list", "items"),
        Cardinality::Many
    );
}

#[test]
fn a_name_bound_twice_in_sequence_is_a_list() {
    assert_eq!(card("rule r = a:ID \",\" a:ID -> pair;\n", "pair", "a"), Cardinality::Many);
}

#[test]
fn a_name_bound_in_both_branches_of_a_choice_is_still_one() {
    assert_eq!(
        card("rule r = (\"a\" x:ID | \"b\" x:NUM) -> either;\n", "either", "x"),
        Cardinality::One
    );
}

#[test]
fn a_name_bound_in_only_one_branch_is_optional() {
    assert_eq!(
        card("rule r = (\"a\" x:ID | \"b\") -> maybe;\n", "maybe", "x"),
        Cardinality::Optional
    );
}

#[test]
fn a_repetition_inside_the_binding_still_counts() {
    assert_eq!(card("rule r = items:ID* -> some;\n", "some", "items"), Cardinality::Many);
    assert_eq!(card("rule r = value:ID? -> maybe;\n", "maybe", "value"), Cardinality::Optional);
}

#[test]
fn a_name_bound_once_is_one() {
    assert_eq!(card("rule r = value:ID -> only;\n", "only", "value"), Cardinality::One);
}

const SHAPES: &str = r#"
grammar S;
use operators::core;
skip WS = " ";
token DIGIT = @ "0".."9";
token ALPHA = @ "a".."z";
token NUMBER = @ DIGIT+;
token IDENT = @ ALPHA+;
rule program = SOI stmts:stmt* EOI -> doc;
rule stmt
  = "let" name:IDENT "=" value:expr ";" -> bind
  | value:expr ";"                      -> eval
  ;
rule atom = primary;
rule primary
  = digits:NUMBER      -> num
  | "(" inner:expr ")" -> pass
  ;
"#;

fn shape_of<'a>(l: &'a Lowered, rule: &str) -> &'a RuleShape {
    &l.rules.iter().find(|r| r.name == rule).unwrap_or_else(|| panic!("no rule `{rule}`")).shape
}

#[test]
fn a_single_alternative_rule_is_one_node() {
    let l = build_str(SHAPES);
    assert!(
        matches!(shape_of(&l, "program"), RuleShape::Single { pest_rule } if pest_rule == "program"),
        "{:?}",
        shape_of(&l, "program")
    );
}

#[test]
fn a_multi_alternative_rule_is_a_choice_of_its_labels() {
    let l = build_str(SHAPES);
    let RuleShape::Choice(vs) = shape_of(&l, "stmt") else {
        panic!("{:?}", shape_of(&l, "stmt"));
    };
    let labels: Vec<&str> = vs
        .iter()
        .filter_map(|v| match v {
            LoweredVariant::Labelled { label, .. } => Some(label.as_str()),
            _ => None,
        })
        .collect();
    assert_eq!(labels, vec!["bind", "eval"]);
}

#[test]
fn a_plain_alias_is_not_a_node() {
    let l = build_str(SHAPES);
    assert!(
        matches!(shape_of(&l, "atom"), RuleShape::Alias { child } if child.as_deref() == Some("primary")),
        "{:?}",
        shape_of(&l, "atom")
    );
}

#[test]
fn a_pass_alternative_names_the_rule_it_yields() {
    let l = build_str(SHAPES);
    let RuleShape::Choice(vs) = shape_of(&l, "primary") else {
        panic!("{:?}", shape_of(&l, "primary"));
    };
    let transparent: Vec<Option<&str>> = vs
        .iter()
        .filter_map(|v| match v {
            LoweredVariant::Transparent { child } => Some(child.as_deref()),
            _ => None,
        })
        .collect();
    assert_eq!(transparent, vec![Some("expr")], "{vs:?}");
}

#[test]
fn undefined_reference_is_reported() {
    let out = lower_err("grammar A;\nrule r = missing_thing;\n");
    assert!(out.contains("undefined reference `missing_thing`"), "{out}");
}

#[test]
fn expr_without_an_operator_table_explains_itself() {
    let out = lower_err("grammar A;\nrule r = expr;\n");
    assert!(out.contains("undefined reference `expr`"), "{out}");
    assert!(out.contains("operator system"), "{out}");
}

#[test]
fn operator_without_a_known_role_demands_a_binding() {
    let out = lower_err(
        "grammar A;\nuse operators::none;\nprecedence override { left \"|>\"; }\nrule atom = \"x\";\n",
    );
    assert!(out.contains("no built-in role for operator `|>`"), "{out}");
    assert!(out.contains("-> pipe") || out.contains("explicit binding"), "{out}");
}

#[test]
fn bindings_become_tags_and_operators_sort_longest_first() {
    let l = build_str(
        "grammar E;\nuse operators::core;\nskip WS = \" \";\n\
         token ALPHA = @ \"a\"..\"z\";\ntoken IDENT = @ ALPHA+;\n\
         reserved from IDENT { \"let\" }\n\
         rule program = SOI \"let\" name:IDENT \"=\" value:expr EOI -> program;\n\
         rule atom = name:IDENT -> var place;\n",
    );
    assert!(l.pest.contains("#name = IDENT"), "{}", l.pest);
    assert!(l.pest.contains("#value = expr"), "{}", l.pest);
    assert!(l.has_expr);
    let line = l.pest.lines().find(|x| x.starts_with("nh_bin_op")).expect("binary operators");
    let le = line.find("nh_op_lt_eq").expect("<=");
    let lt = line.find("nh_op_lt ").or_else(|| line.find("nh_op_lt}")).unwrap_or(usize::MAX);
    assert!(le < lt, "{line}");
    assert!(l.pest.contains("nh_kw_let = @{ \"let\" ~ !nh_cont_IDENT }"), "{}", l.pest);
    let var = l.alternatives.iter().find(|a| a.label == "var").unwrap();
    assert!(var.place);
    assert_eq!(var.bindings[0].token.as_ref().map(|t| t.name.as_str()), Some("IDENT"));
}

fn resolved(source: &str) -> (nailhammer::lower::resolve::Resolution, Vec<nailhammer::syntax::error::Diagnostic>) {
    let mut sm = SourceMap::new();
    let ast = parse_source(&mut sm, "<test>", source).unwrap_or_else(|e| panic!("{}", e.render(&sm)));
    let mut ds = Vec::new();
    let res = nailhammer::lower::resolve::resolve(&ast, false, &mut ds);
    (res, ds)
}

#[test]
fn a_shadowable_builtin_is_renamed_and_a_reserved_one_defines_nothing() {
    let (res, ds) = resolved(
        "grammar G;\nskip WS = \" \";\ntoken NUMBER = @ \"0\"..\"9\";\ntoken ANY = \"x\";\n\
         rule num = n:NUMBER -> num;\n",
    );
    assert_eq!(res.pest_name("NUMBER"), "NUMBER_");
    assert_eq!(res.kind("NUMBER"), Some(DefKind::Token));
    assert_eq!(res.kind("ANY"), None);
    assert_eq!(res.kind("WS"), Some(DefKind::Skip));
    assert_eq!(res.pest_name("WS"), "nh_skip_WS");
    assert_eq!(res.kind("num"), Some(DefKind::Rule));
    assert!(ds.iter().any(|d| d.message.contains("`ANY` is a pest built-in")), "{ds:?}");
}

#[test]
fn a_rule_replaces_a_token_of_the_same_name() {
    let (res, _) = resolved("grammar G;\ntoken X = \"x\";\nrule X = \"y\" -> y;\n");
    assert_eq!(res.kind("X"), Some(DefKind::Rule));
}

#[test]
fn a_guard_on_an_unknown_token_is_an_error() {
    let (res, ds) = resolved("grammar G;\nreserved from IDENT { \"let\" }\nrule r = \"a\" -> a;\n");
    assert!(res.continuation_of("IDENT").is_none());
    assert!(
        ds.iter().any(|d| d.message == "`reserved from` names unknown token `IDENT`"),
        "{ds:?}"
    );
}

#[test]
fn case_insensitive_tokens_are_listed_in_order() {
    let (res, _) = resolved(
        "grammar G;\ntoken A = case-insensitive \"a\";\ntoken B = \"b\";\ntoken C = @ case-insensitive \"c\";\n",
    );
    assert_eq!(res.case_insensitive_tokens, vec!["A".to_string(), "C".to_string()]);
}

#[test]
fn a_clean_grammar_resolves_without_diagnostics() {
    let (res, ds) = resolved(
        "grammar A;\ntoken NUMBER = @ \"0\"..\"9\";\nrule r = n:NUMBER -> num;\n",
    );
    assert!(ds.is_empty(), "{ds:?}");
    assert_eq!(res.kind("NUMBER"), Some(DefKind::Token));
    assert_eq!(res.pest_name("NUMBER"), "NUMBER_");
    assert_eq!(res.pest_name("r"), "r");
}

#[test]
fn a_rename_skips_names_defined_before_it() {
    let (res, _) = resolved(
        "grammar A;\ntoken NUMBER_ = \"1\";\ntoken NUMBER = @ \"0\"..\"9\";\nrule r = NUMBER NUMBER_ -> num;\n",
    );
    assert_eq!(res.pest_name("NUMBER"), "NUMBER__");
}

#[test]
fn continuations_come_from_the_repeated_part_under_emitted_names() {
    let (res, ds) = resolved(
        "grammar A;\ntoken LETTER = \"a\"..\"z\";\ntoken IDENT = @ LETTER (LETTER | \"_\")*;\n\
         reserved from IDENT { \"let\" }\nrule r = IDENT -> id;\n",
    );
    assert!(ds.is_empty(), "{ds:?}");
    let cont = res.continuation_of("IDENT").expect("a class");
    assert_eq!(cont, &vec!["\"_\"".to_string(), "LETTER_".to_string()]);
}

#[test]
fn a_boundary_gives_the_continuation_outright() {
    let (res, ds) = resolved(
        "grammar A;\ntoken IDENT = @ \"a\"..\"z\"+;\nboundary IDENT = \"x\" | \"y\";\n\
         guard from IDENT { \"if\" }\nrule r = IDENT -> id;\n",
    );
    assert!(ds.is_empty(), "{ds:?}");
    assert_eq!(res.continuation_of("IDENT").unwrap(), &vec!["\"x\"".to_string(), "\"y\"".to_string()]);
}

#[test]
fn a_skip_a_renamed_builtin_and_a_rule_emit_distinct_names() {
    let (res, ds) = resolved(
        "grammar A;\nskip WS = \" \";\ntoken NUMBER = @ \"0\"..\"9\";\nrule r = NUMBER -> num;\n",
    );
    assert!(ds.is_empty(), "{ds:?}");
    let names = [res.pest_name("WS"), res.pest_name("NUMBER"), res.pest_name("r")];
    assert_eq!(names, ["nh_skip_WS".to_string(), "NUMBER_".to_string(), "r".to_string()]);
}
