use nailhammer::syntax::ast::Ast;
use nailhammer::syntax::error::{Diagnostic, Errors};
use nailhammer::syntax::import::{merge, Loader, Visit};
use nailhammer::syntax::parse_source;
use nailhammer::syntax::source::{SourceMap, Span};

/// Follows imports through an in-memory file set, the way the command-line
/// driver does through the file system.
fn load(loader: &mut Loader, sm: &mut SourceMap, files: &[(&str, &str)], path: &str, origin: Option<Span>) {
    let found = files.iter().find(|(p, _)| *p == path);
    let text = match found {
        Some((_, t)) => *t,
        None => {
            loader.cannot_read(path, "No such file or directory (os error 2)", origin);
            return;
        }
    };
    match loader.visit(path, path, origin) {
        Visit::Fresh => {}
        Visit::Seen | Visit::Cycle => return,
    }
    let imports = match loader.enter(sm, path, path, path, text) {
        Some(i) => i,
        None => return,
    };
    let base = match path.rfind('/') {
        Some(i) => &path[..i + 1],
        None => "",
    };
    for (p, span) in imports {
        let target = format!("{base}{p}");
        load(loader, sm, files, &target, Some(span));
    }
    loader.leave();
}

fn resolve_in(files: &[(&str, &str)], entry: &str) -> (SourceMap, Result<Ast, Errors>) {
    let mut sm = SourceMap::new();
    let mut loader = Loader::new();
    load(&mut loader, &mut sm, files, entry, None);
    let r = loader.finish();
    (sm, r)
}

fn ok(files: &[(&str, &str)], entry: &str) -> Ast {
    let (sm, r) = resolve_in(files, entry);
    match r {
        Ok(ast) => ast,
        Err(e) => panic!("expected {entry} to parse:\n{}", e.render(&sm)),
    }
}

fn err(files: &[(&str, &str)], entry: &str) -> String {
    let (sm, r) = resolve_in(files, entry);
    match r {
        Ok(_) => panic!("expected {entry} to fail"),
        Err(e) => e.render(&sm),
    }
}

const DIAMOND: &[(&str, &str)] = &[
    ("fixtures/diamond.nh", "grammar Diamond;\nimport \"diamond_left.nh\";\nimport \"diamond_right.nh\";\nrule start = SHARED_ID LEFT_ONLY RIGHT_ONLY;\n"),
    ("fixtures/diamond_left.nh", "import \"diamond_shared.nh\";\ntoken LEFT_ONLY = \"l\";\n"),
    ("fixtures/diamond_right.nh", "import \"diamond_shared.nh\";\ntoken RIGHT_ONLY = \"r\";\n"),
    ("fixtures/diamond_shared.nh", "token SHARED_ID = \"s\";\n"),
];

#[test]
fn diamond_import_loads_shared_file_once() {
    let ast = ok(DIAMOND, "fixtures/diamond.nh");
    let shared = ast.tokens.iter().filter(|t| t.name.value == "SHARED_ID").count();
    assert_eq!(shared, 1, "a file reached twice must not duplicate");

    let names: Vec<&str> = ast.tokens.iter().map(|t| t.name.value.as_str()).collect();
    assert!(names.contains(&"LEFT_ONLY") && names.contains(&"RIGHT_ONLY"));
    // Post-order: the shared file, reached first through the left, comes first.
    assert_eq!(names, ["SHARED_ID", "LEFT_ONLY", "RIGHT_ONLY"]);
}

#[test]
fn import_cycle_is_an_error() {
    let files = [
        ("fixtures/cycle_a.nh", "grammar A;\nimport \"cycle_b.nh\";\nrule r = X;\n"),
        ("fixtures/cycle_b.nh", "import \"cycle_a.nh\";\ntoken X = \"x\";\n"),
    ];
    let out = err(&files, "fixtures/cycle_a.nh");
    assert!(out.contains("import cycle detected"), "{out}");
    assert!(out.contains("cycle_b.nh"), "{out}");
    assert!(out.contains("fixtures/cycle_a.nh -> fixtures/cycle_b.nh -> fixtures/cycle_a.nh"), "{out}");
}

#[test]
fn duplicate_definition_names_both_locations() {
    let files = [
        ("fixtures/dup_main.nh", "grammar Dup;\nimport \"dup_base.nh\";\ntoken IDENT = \"y\";\nrule r = IDENT;\n"),
        ("fixtures/dup_base.nh", "token IDENT = \"x\";\n"),
    ];
    let out = err(&files, "fixtures/dup_main.nh");
    assert!(out.contains("token `IDENT` already defined"), "{out}");
    assert!(out.contains("first defined here"), "{out}");
    assert!(out.contains("dup_main.nh"), "{out}");
    assert!(out.contains("dup_base.nh"), "{out}");
}

#[test]
fn a_fragment_alone_has_no_grammar_declaration() {
    let files = [("fixtures/fragment_only.nh", "token X = \"x\";\n")];
    let out = err(&files, "fixtures/fragment_only.nh");
    assert!(out.contains("no `grammar` declaration found"), "{out}");
}

#[test]
fn missing_import_reports_the_import_site() {
    let files = [("g.nh", "grammar A;\nimport \"nope_does_not_exist.nh\";\nrule r = x;\n")];
    let out = err(&files, "g.nh");
    assert!(out.contains("cannot read"), "{out}");
    assert!(out.contains("nope_does_not_exist.nh"), "{out}");
    assert!(out.contains("g.nh:2:"), "{out}");
}

fn parsed(name: &str, text: &str, sm: &mut SourceMap) -> Ast {
    parse_source(sm, name, text).unwrap_or_else(|e| panic!("{}", e.render(sm)))
}

#[test]
fn merging_keeps_first_definitions_and_concatenates_the_rest() {
    let mut sm = SourceMap::new();
    let a = parsed("a.nh", "token T = \"a\";\nrule r = T;\nreserved from T { \"if\" }\n", &mut sm);
    let b = parsed("b.nh", "grammar G;\nkeywords case-insensitive;\nrule r = T T;\nrule s = T;\nreserved from T { \"else\" }\n", &mut sm);
    let mut ds: Vec<Diagnostic> = Vec::new();
    let out = merge(vec![a, b], &mut ds);
    let rules: Vec<&str> = out.rules.iter().map(|r| r.name.value.as_str()).collect();
    assert_eq!(rules, ["r", "s"]);
    assert_eq!(out.rules[0].name.span.file.0, 0, "the first definition is kept");
    assert_eq!(out.reserved.len(), 2);
    assert_eq!(out.grammar_name.as_ref().map(|g| g.value.as_str()), Some("G"));
    assert_eq!(ds.len(), 1);
    assert_eq!(ds[0].message, "rule `r` already defined");
    assert_eq!(ds[0].notes[0].message, "first defined here as rule `r`");
}

#[test]
fn a_skip_and_a_token_share_one_namespace() {
    let mut sm = SourceMap::new();
    let a = parsed("a.nh", "grammar G;\nskip WS = \" \";\ntoken WS = \"\\t\";\n", &mut sm);
    let mut ds: Vec<Diagnostic> = Vec::new();
    let out = merge(vec![a], &mut ds);
    assert_eq!(out.skips.len(), 1);
    assert_eq!(out.tokens.len(), 0);
    assert_eq!(ds.len(), 1);
    assert_eq!(ds[0].message, "token `WS` already defined");
}

#[test]
fn two_grammar_names_and_conflicting_cases_are_errors() {
    let mut sm = SourceMap::new();
    let a = parsed("a.nh", "grammar A;\nkeywords case-insensitive;\n", &mut sm);
    let b = parsed("b.nh", "grammar B;\nkeywords case-sensitive;\n", &mut sm);
    let mut ds: Vec<Diagnostic> = Vec::new();
    let out = merge(vec![a, b], &mut ds);
    assert_eq!(out.grammar_name.as_ref().map(|g| g.value.as_str()), Some("A"));
    let msgs: Vec<&str> = ds.iter().map(|d| d.message.as_str()).collect();
    assert_eq!(msgs, ["more than one `grammar` declaration", "conflicting `keywords` case declarations"]);
}
