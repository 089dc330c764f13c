use nailhammer::codegen::drift::{check, signature_params, Drift};
use nailhammer::codegen::operators::{emit_discriminants, emit_driver, emit_trait, emit_value_operators, emitted, grouped_roles};
use nailhammer::codegen::params::{params, Param};
use nailhammer::codegen::vm::{operators_impl, target_by_name, Target};
use nailhammer::codegen::{ident, pascal_name};
use nailhammer::lower::{lower, Lowered};
use nailhammer::operators::{resolve, OperatorTable};
use nailhammer::syntax::parse_source;
use nailhammer::syntax::source::SourceMap;

/// Wraps a `precedence` block in the smallest grammar that lowers.
fn compiled(precedence: &str) -> (OperatorTable, Lowered) {
    let source = format!(
        "grammar T;\nuse operators::none;\n\
         skip WS = \" \";\n\
         token DIGIT = @ \"0\"..\"9\";\ntoken NUMBER = @ DIGIT+;\n\
         token ALPHA = @ \"a\"..\"z\";\ntoken IDENT = @ ALPHA+;\n\
         {precedence}\n\
         rule program = SOI body:expr EOI -> program;\n\
         rule atom = primary;\n\
         rule primary = value:NUMBER -> num | name:IDENT -> var place;\n"
    );
    let mut sm = SourceMap::new();
    let ast = parse_source(&mut sm, "<test>", &source).unwrap_or_else(|e| panic!("{}", e.render(&sm)));
    let table = resolve(&ast, &mut sm).unwrap_or_else(|e| panic!("{}", e.render(&sm)));
    let lowered = lower(&ast, &table).unwrap_or_else(|e| panic!("{}", e.render(&sm)));
    (table, lowered)
}

fn lowered_of(source: &str) -> Lowered {
    let mut sm = SourceMap::new();
    let ast = parse_source(&mut sm, "<test>", source).unwrap_or_else(|e| panic!("{}", e.render(&sm)));
    let table = resolve(&ast, &mut sm).unwrap_or_else(|e| panic!("{}", e.render(&sm)));
    lower(&ast, &table).unwrap_or_else(|e| panic!("{}", e.render(&sm)))
}

// ---------------------------------------------------------------------------
// Reading a handler's signature back
// ---------------------------------------------------------------------------

#[test]
fn a_plain_signature_reads_back() {
    let src = "pub fn run(host: &mut Interp, key: &str, value: Value, cx: &mut Ctx) -> Result<Value> {";
    assert_eq!(signature_params(src).unwrap(), vec!["key", "value"]);
}

#[test]
fn generic_types_do_not_confuse_the_split() {
    let src = "pub fn run(h: &mut I, a: Option<&str>, b: &[Shared<Line>], c: HashMap<K, V>, cx: &mut Ctx)";
    assert_eq!(signature_params(src).unwrap(), vec!["a", "b", "c"]);
}

#[test]
fn a_wrapped_signature_reads_back() {
    let src = "pub fn run(\n    host: &mut Interp,\n    var: &Name,\n    body: &[Shared<Line>],\n    cx: &mut Ctx,\n) -> Result<Value> {";
    assert_eq!(signature_params(src).unwrap(), vec!["var", "body"]);
}

#[test]
fn a_leading_underscore_is_not_a_different_name() {
    let src = "pub fn run(_host: &mut Interp, _key: &str, value: Value, _cx: &mut Ctx)";
    assert_eq!(signature_params(src).unwrap(), vec!["key", "value"]);
}

#[test]
fn a_different_parameter_count_is_left_to_the_compiler() {
    let src = "pub fn run(h: &mut I, key: &str, cx: &mut Ctx)";
    let names = signature_params(src).unwrap();
    assert_eq!(names, vec!["key"]);
}

#[test]
fn nothing_parseable_means_nothing_reported() {
    assert_eq!(signature_params("// somebody rewrote this entirely"), None);
}

#[test]
fn mut_parameters_and_receivers_are_read_through() {
    let src = "pub fn run(&self, mut host: &mut I, mut mut x: u8, cx: &mut Ctx)";
    assert_eq!(signature_params(src).unwrap(), vec!["x"]);
    // Only the host: nothing bound.
    assert_eq!(signature_params("pub fn run(h: &mut I)"), None);
    assert_eq!(signature_params("pub fn run(h: &mut I"), None);
}

const DRIFT: &str = "grammar D;\nuse operators::none;\nskip WS = \" \";\n\
                     token ALPHA = @ \"a\"..\"z\";\ntoken IDENT = @ ALPHA+;\n\
                     rule stmt = \"let\" name:IDENT \"=\" value:IDENT \";\" -> bind;\n";

#[test]
fn a_swapped_handler_is_reported_as_an_error() {
    let l = lowered_of(DRIFT);
    let alt = &l.alternatives[0];
    let ok = "pub fn run(h: &mut I, name: &str, value: &str, cx: &mut Ctx)";
    assert_eq!(check(alt, ok), None);

    let swapped = "pub fn run(h: &mut I, value: &str, name: &str, cx: &mut Ctx)";
    let d = check(alt, swapped).expect("a reorder");
    assert!(d.is_error());
    assert_eq!(
        d,
        Drift::Reordered { expected: vec!["name".to_string(), "value".to_string()], found: vec!["value".to_string(), "name".to_string()] }
    );
    let msg = d.message("handlers/stmt_bind.rs");
    assert!(msg.starts_with("handlers/stmt_bind.rs takes its parameters in a different order"), "{msg}");
    assert!(msg.contains("  grammar:  name, value\n  handler:  value, name\n"), "{msg}");

    let renamed = "pub fn run(h: &mut I, key: &str, value: &str, cx: &mut Ctx)";
    let d = check(alt, renamed).expect("a rename");
    assert!(!d.is_error());
    assert!(d.message("p.rs").starts_with("p.rs names its parameters differently"));

    // One parameter fewer: the compiler says it better.
    assert_eq!(check(alt, "pub fn run(h: &mut I, name: &str, cx: &mut Ctx)"), None);
}

// ---------------------------------------------------------------------------
// Parameters and names
// ---------------------------------------------------------------------------

#[test]
fn identifiers_escape_reserved_words() {
    assert_eq!(ident("value"), "value");
    assert_eq!(ident("type"), "r#type");
    assert_eq!(ident("match"), "r#match");
    assert_eq!(ident("self"), "self_");
    assert_eq!(pascal_name("eq_eq"), "EqEq");
    assert_eq!(pascal_name("primary_var"), "PrimaryVar");
    assert_eq!(pascal_name("_x__y"), "XY");
}

#[test]
fn parameters_follow_the_grammar() {
    let l = lowered_of(
        "grammar P;\nuse operators::none;\nskip WS = \" \";\n\
         token ALPHA = @ \"a\"..\"z\";\ntoken IDENT = @ ALPHA+;\n\
         rule item = name:IDENT -> it;\n\
         rule stmt = \"do\" name:IDENT body:item lazy later:item rest:item* maybe:IDENT? -> doit;\n",
    );
    let alt = l.alternatives.iter().find(|a| a.label == "doit").unwrap();
    let ps = params(alt);
    let names: Vec<&str> = ps.iter().map(|p| p.name.as_str()).collect();
    assert_eq!(names, ["name", "body", "later", "rest", "maybe"]);
    let tys: Vec<&str> = ps.iter().map(|p| p.ty.as_str()).collect();
    assert_eq!(tys, ["&str", "Self::Out", "&Shared<Item>", "Vec<Self::Out>", "Option<&str>"]);
    assert_eq!(ps[0].extract, "&node.name");
    assert_eq!(ps[1].extract, "eval_item(host, &node.body, cx)?");
    assert_eq!(ps[4].extract, "node.maybe.as_deref()");
    assert_eq!(ps[2].doc, "the `item` rule, **unevaluated** — `.eval(host, cx)?` runs it");
    assert!(ps[3].doc.ends_with("(repeated in the grammar; items that failed and were already reported are omitted)"));
    assert_eq!(Param::signature(&ps[..2]), ", name: &str, body: Self::Out");
    assert_eq!(Param::doc_lines(&ps[..1]), "    /// * `name` — the text of the `IDENT` token\n");
}

// ---------------------------------------------------------------------------
// The operator table and trait
// ---------------------------------------------------------------------------

#[test]
fn operators_are_emitted_once_per_rule_and_fixity() {
    let (t, _) = compiled("precedence {\n  left \"+\" | \"-\";\n  left \"*\";\n  prefix \"-\";\n  atom atom;\n}");
    let ops = emitted(&t);
    let rules: Vec<(&str, u16)> = ops.iter().map(|e| (e.rule.as_str(), e.precedence)).collect();
    assert_eq!(rules, [("nh_op_plus", 1), ("nh_op_minus", 1), ("nh_op_star", 2), ("nh_op_minus", 3)]);
    assert!(grouped_roles(&ops).is_empty());
}

#[test]
fn a_shared_role_gets_a_discriminant() {
    let (t, _) = compiled("precedence {\n  left \"==\" | \"<\" -> compare;\n  atom atom;\n}");
    let ops = emitted(&t);
    let g = grouped_roles(&ops);
    assert_eq!(g.len(), 1);
    assert_eq!(g[0].0, "compare");
    assert_eq!(g[0].1, vec![("EqEq".to_string(), "==".to_string()), ("Lt".to_string(), "<".to_string())]);

    let mut out = String::new();
    emit_discriminants(&mut out, &ops);
    assert!(out.contains("pub enum CompareOp {\n    /// `==`\n    EqEq,\n"), "{out}");
    assert!(out.contains("            CompareOp::Lt => \"<\",\n"), "{out}");

    let mut tr = String::new();
    emit_trait(&mut tr, &ops);
    assert!(tr.contains("fn compare(&mut self, lhs: Self::Out, op: CompareOp, rhs: Self::Out) -> Result<Self::Out> {"), "{tr}");
    assert_eq!(tr.matches("fn compare(").count(), 1, "{tr}");
}

#[test]
fn the_driver_prefers_the_infix_reading() {
    let (t, _) = compiled("precedence {\n  left \"-\";\n  prefix \"-\";\n  atom atom;\n}");
    let ops = emitted(&t);
    let mut out = String::new();
    emit_driver(&mut out, &ops, "atom");
    assert!(out.contains("        Rule::nh_op_minus => info(1, Fixity::Infix, Assoc::Left),\n"), "{out}");
    assert!(out.contains("        Rule::nh_op_minus => info(2),\n"), "{out}");
    assert!(out.contains("Expr::Atom(a) => eval_atom(host, a, cx),"), "{out}");
    assert!(out.contains("                Rule::nh_op_minus => host.neg(value),\n"), "{out}");
    assert!(out.contains("`{op:?}` is not a postfix operator"), "{out}");
}

#[test]
fn no_operators_means_no_table() {
    let (t, _) = compiled("precedence { atom atom; }");
    let ops = emitted(&t);
    let mut out = String::new();
    emit_driver(&mut out, &ops, "atom");
    assert!(out.starts_with("/// This grammar declares no operators.\n"), "{out}");
    let mut tr = String::new();
    emit_trait(&mut tr, &ops);
    assert!(tr.contains("    // This grammar declares no operators.\n"), "{tr}");
    let mut v = String::new();
    emit_value_operators(&mut v, &ops);
    assert_eq!(v, "");
}

// ---------------------------------------------------------------------------
// Operators against a VM
// ---------------------------------------------------------------------------

#[test]
fn arithmetic_generates_its_own_implementation() {
    let (t, l) = compiled(
        "precedence {\n  left \"+\" | \"-\";\n  \
         left \"*\" | \"/\";\n  prefix \"-\";\n  atom atom;\n}",
    );

    let src = operators_impl(&t, &l, &Target::nh_vm(), "Compiler").expect("all roles are executable");

    assert!(src.contains("fn add(&mut self, lhs: Reg, rhs: Reg)"), "{src}");
    assert!(src.contains("self.emit(Op::Add { dst, a: lhs, b: rhs });"), "{src}");
    assert!(src.contains("fn mul(&mut self, lhs: Reg, rhs: Reg)"), "{src}");
    assert!(src.contains("self.emit(Op::Mul { dst, a: lhs, b: rhs });"), "{src}");

    assert!(src.contains("fn neg(&mut self, operand: Reg)"), "{src}");
    assert!(src.contains("self.emit(Op::Neg { dst, a: operand });"), "{src}");

    assert!(!src.contains("todo!"), "{src}");
    assert!(!src.contains("unimplemented"), "{src}");
    assert!(!src.contains("Err(Error::unsupported"), "no stubbed-out methods: {src}");
}

#[test]
fn a_comparison_tier_becomes_one_instruction() {
    let (t, l) = compiled(
        "precedence {\n  \
         left \"==\" | \"!=\" | \"<\" | \"<=\" | \">\" | \">=\" -> compare;\n  \
         atom atom;\n}",
    );

    let src = operators_impl(&t, &l, &Target::nh_vm(), "Compiler").expect("compare is executable");

    assert!(src.contains("fn compare(&mut self, lhs: Reg, op: CompareOp, rhs: Reg)"), "{src}");
    assert!(src.contains("CompareOp::Lt => Cmp::Lt,"), "{src}");
    assert!(src.contains("CompareOp::EqEq => Cmp::Eq,"), "variant named from the spelling: {src}");
    assert!(src.contains("self.emit(Op::Compare { dst, cmp, a: lhs, b: rhs });"), "{src}");

    assert_eq!(src.matches("fn compare(").count(), 1, "{src}");
}

#[test]
fn a_role_the_vm_cannot_execute_is_reported_not_emitted() {
    let (t, l) = compiled(
        "precedence {\n  left \"+\";\n  \
         left \"->\" -> arrow;\n  right \"=\" -> assign;\n  atom atom;\n}",
    );

    let missing = operators_impl(&t, &l, &Target::nh_vm(), "Compiler")
        .expect_err("nh-vm has no member access");

    let roles: Vec<&str> = missing.iter().map(|u| u.role.as_str()).collect();
    assert_eq!(roles, ["arrow"], "sorted and deduplicated: {missing:?}");
    assert_eq!(missing[0].spelling, "->", "named by something the author typed");
}

#[test]
fn one_report_per_role_not_per_spelling() {
    let (t, l) = compiled(
        "precedence {\n  \
         left \"->\" | \"=>\" -> arrow;\n  atom atom;\n}",
    );

    let missing = operators_impl(&t, &l, &Target::nh_vm(), "Compiler").expect_err("nh-vm has no member access");
    assert_eq!(missing.len(), 1, "{missing:?}");
    assert_eq!(missing[0].role, "arrow");
}

#[test]
fn no_operators_is_not_an_error() {
    let (t, l) = compiled("precedence { atom atom; }");
    let src = operators_impl(&t, &l, &Target::nh_vm(), "Compiler").expect("nothing to support");
    assert!(src.contains("impl Operators for Compiler {"), "{src}");
    assert!(!src.contains("fn add"), "{src}");
}

#[test]
fn assignment_lowers_to_a_store_by_slot() {
    let (t, l) = compiled("precedence {\n  right \"=\" -> assign;\n  left \"+\";\natom atom;\n}");

    let src = operators_impl(&t, &l, &Target::nh_vm(), "Compiler").expect("assign is executable");

    assert!(src.contains("Place::PrimaryVar { name, .. }"), "{src}");
    assert!(src.contains("self.store_var(name, value);"), "{src}");
    assert!(src.contains("Ok(value)"), "{src}");
    assert!(src.contains("fn place_read"), "{src}");
    assert!(src.contains("Ok(self.read_var(name))"), "{src}");
}

#[test]
fn short_circuiting_is_a_jump_and_reports_are_sorted() {
    let (t, l) = compiled("precedence {\n  left \"||\" -> or_else;\n  left \"&&\" -> and_then;\n  atom atom;\n}");
    let src = operators_impl(&t, &l, &Target::nh_vm(), "Compiler").expect("both are jumps");
    assert!(src.contains("impl ShortCircuit for Compiler {"), "{src}");
    assert!(src.contains("let skip = self.emit(Op::JumpIfTrue { src: lhs, target: usize::MAX });"), "{src}");
    assert!(src.contains("nh_handlers!(Compiler, without short_circuit);"), "{src}");

    let (t, l) = compiled("precedence {\n  left \"|>\" -> pipe;\n  left \"->\" -> arrow;\n  atom atom;\n}");
    let missing = operators_impl(&t, &l, &Target::nh_vm(), "C").unwrap_err();
    let roles: Vec<&str> = missing.iter().map(|u| u.role.as_str()).collect();
    assert_eq!(roles, ["arrow", "pipe"]);

    assert!(target_by_name("nh-vm").is_some());
    assert!(target_by_name("nh-vmm").is_none());
}
