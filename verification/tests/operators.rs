use nailhammer::operators::presets;
use nailhammer::operators::roles::{role_for, role_for_word};
use nailhammer::operators::{explain, resolve, OperatorTable};
use nailhammer::syntax::ast::Fixity;
use nailhammer::syntax::parse_source;
use nailhammer::syntax::source::SourceMap;

fn table_from(source: &str) -> Result<OperatorTable, String> {
    let mut sm = SourceMap::new();
    let ast = parse_source(&mut sm, "<test>", source).unwrap_or_else(|e| panic!("{}", e.render(&sm)));
    resolve(&ast, &mut sm).map_err(|e| e.render(&sm))
}

#[test]
fn a_role_cannot_be_bound_at_two_fixities() {
    let err = table_from(
        "grammar T;\nprecedence {\n  left \"==\" -> compare;\n  \
         prefix \"!\" -> compare;\n  atom a;\n}\n",
    )
    .expect_err("must be rejected");
    assert!(err.contains("two different fixities"), "{err}");
    assert!(err.contains("`compare`"), "{err}");
}

#[test]
fn two_tiers_may_share_a_role_at_one_fixity() {
    let table = table_from(
        "grammar T;\nprecedence {\n  left \"==\" | \"!=\" -> compare;\n  \
         left \"<\" | \">\" -> compare;\n  atom a;\n}\n",
    )
    .expect("same fixity is fine");
    assert_eq!(table.operators().len(), 4);
}

#[test]
fn every_preset_resolves_cleanly() {
    for name in presets::names() {
        let source = format!("grammar T;\nuse operators::{name};\n");
        table_from(&source).unwrap_or_else(|e| panic!("preset `{name}`:\n{e}"));
    }
}

#[test]
fn roles_depend_on_position() {
    assert_eq!(role_for("-", false), Some("sub"));
    assert_eq!(role_for("-", true), Some("neg"));
    assert_eq!(role_for("|>", false), None);
    assert_eq!(role_for_word("and", false), Some("bit_and"));
    assert_eq!(role_for_word("Not", true), Some("not"));
}

#[test]
fn operators_sort_longest_first() {
    let t = table_from("grammar T;\nuse operators::c_style;\n").unwrap();
    let ops: Vec<&str> = t.sorted_by_fixity(Fixity::Left).iter().map(|o| o.literal.as_str()).collect();
    for w in ops.windows(2) {
        assert!(w[0].len() >= w[1].len(), "{ops:?}");
    }
    assert!(ops.iter().position(|o| *o == "<=").unwrap() < ops.iter().position(|o| *o == "<").unwrap());
}

#[test]
fn override_adjusts_and_bare_block_replaces() {
    let t = table_from(
        "grammar T;\nuse operators::core;\nprecedence override { left \"**\" above \"*\"; }\n",
    )
    .unwrap();
    let shown = explain(&t);
    assert!(shown.contains("preset: operators::core"), "{shown}");
    assert!(shown.contains("**"), "{shown}");
    assert!(shown.contains("atom: `atom`"), "{shown}");
    let err = table_from("grammar T;\nuse operators::core;\nprecedence override { remove \"@@\"; }\n")
        .expect_err("absent operator");
    assert!(err.contains("cannot remove `@@`"), "{err}");
}

#[test]
fn an_unknown_preset_lists_the_known_ones() {
    let err = table_from("grammar A;\nuse operators::klingon;\n").expect_err("unknown");
    assert!(err.contains("unknown operator preset `klingon`"), "{err}");
    assert!(err.contains("c_style"), "{err}");
    assert!(presets::source("none").is_some());
    assert!(presets::source("klingon").is_none());
}

fn tier_spellings(t: &OperatorTable) -> Vec<(Fixity, Vec<String>)> {
    t.tiers.iter().map(|tier| (tier.fixity, tier.operators.iter().map(|o| o.literal.clone()).collect())).collect()
}

#[test]
fn a_block_places_tiers_and_removes_from_the_first_tier_only() {
    let t = table_from(
        "grammar T;\nprecedence {\n  left \"+\" | \"-\";\n  left \"*\";\n  prefix \"-\";\n  \
         remove \"*\";\n  left \"/\" below \"+\";\n  remove \"-\";\n  atom a;\n}\n",
    )
    .unwrap();
    assert_eq!(
        tier_spellings(&t),
        vec![
            (Fixity::Left, vec!["/".to_string()]),
            (Fixity::Left, vec!["+".to_string()]),
            (Fixity::Prefix, vec!["-".to_string()]),
        ]
    );
    assert_eq!(t.tiers[2].operators[0].role, "neg");
    assert_eq!(t.atom_rule.as_deref(), Some("a"));
}

#[test]
fn above_goes_one_tier_tighter_than_the_anchor() {
    let t = table_from("grammar T;\nprecedence {\n  left \"+\";\n  left \"*\";\n  left \"%\" above \"+\";\n  atom a;\n}\n")
        .unwrap();
    let shapes = tier_spellings(&t);
    let names: Vec<&str> = shapes.iter().map(|(_, v)| v[0].as_str()).collect();
    assert_eq!(names, vec!["+", "%", "*"]);
}

#[test]
fn each_failed_entry_is_reported() {
    let err = table_from(
        "grammar T;\nprecedence {\n  left \"+\";\n  left \"|>\";\n  left \"%\" above \"@@\";\n  atom a;\n}\n",
    )
    .expect_err("two errors");
    assert!(err.contains("no built-in role for operator `|>`"), "{err}");
    assert!(err.contains("unknown anchor operator `@@`"), "{err}");
}
