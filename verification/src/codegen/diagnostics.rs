//! Generated diagnostics: expectation labels and syntax-error collection.
//!
//! Pest reports the rules it expected; an `expect .. as ..` declaration maps
//! such a rule to a sentence here. A `recover` rule parses even when its body
//! fails, leaving an error node behind, and walking for those nodes yields
//! one diagnostic per failure.

use vstd::prelude::*;
use crate::codegen::{module_of, module_part, HEADER};
use crate::codegen::operators::{debug_quoted, debug_str};
use crate::lower::{Lowered, Recovery};

verus! {

pub const USES: &'static str = "\n#![allow(dead_code, unused_imports)]\n\nuse nh_runtime::{Diagnostic, FileId, Span};\nuse nh_runtime::pest::Pair;\n\nuse ";

pub const RULE_IMPORT_TAIL: &'static str = "::Rule;\n\n";

pub const DESCRIBE_NONE: &'static str = "/// This grammar declares no `expect` labels.\npub fn describe(rule: Rule) -> Option<&'static str> {\n    let _ = rule;\n    None\n}\n\n";

pub const DESCRIBE_HEAD: &'static str = "/// A human description of a rule, for error messages.\n///\n/// Populated from `expect .. as ..` declarations in the grammar. Pest\n/// names the rules it expected; this is what turns those into a sentence.\npub fn describe(rule: Rule) -> Option<&'static str> {\n    match rule {\n";

pub const ARM_HEAD: &'static str = "        Rule::";

pub const MATCH_TAIL: &'static str = "        _ => None,\n    }\n}\n\n";

pub const COLLECT: &'static str = "/// Collects every syntax error the parse recovered from.\n///\n/// A `recover` rule succeeds even when its body fails, leaving behind a\n/// node that stands for the skipped text. Call this after parsing and\n/// before evaluating: it reports **all** the syntax errors at once,\n/// rather than the first one and nothing else.\npub fn syntax_errors(pair: &Pair<'_, Rule>, file: FileId) -> Vec<Diagnostic> {\n    let mut out = Vec::new();\n    walk(pair, file, &mut out);\n    out\n}\n\nfn walk(pair: &Pair<'_, Rule>, file: FileId, out: &mut Vec<Diagnostic>) {\n    if let Some(d) = error_at(pair, file) {\n        out.push(d);\n        // Do not descend: the whole subtree is the one failure.\n        return;\n    }\n    for inner in pair.clone().into_inner() {\n        walk(&inner, file, out);\n    }\n}\n\n";

pub const ERROR_AT_HEAD: &'static str = "/// Whether this node *is* a recovery node, and the message if so.\npub fn error_at(pair: &Pair<'_, Rule>, file: FileId) -> Option<Diagnostic> {\n    let s = pair.as_span();\n    let span = Span::new(file, s.start() as u32, s.end() as u32);\n    match pair.as_rule() {\n";

pub const ERROR_AT_NONE: &'static str = "/// This grammar declares no `recover` rules, so nothing recovers.\npub fn error_at(pair: &Pair<'_, Rule>, file: FileId) -> Option<Diagnostic> {\n    let _ = (pair, file);\n    None\n}\n\n";

pub const RECOVERY_MID: &'static str = " => Some(\n            Diagnostic::error(\"could not parse this `";

pub const RECOVERY_TAIL: &'static str = "`\")\n                .at(span)\n                .help(\"skipped to the next sync point and carried on, so errors after this one are real\"),\n        ),\n";

pub const PARSE_ERROR: &'static str = "/// Turns pest's parse error into a diagnostic with a readable message.\n///\n/// Pest lists the rules it expected. Any of them with an `expect`\n/// description contributes a sentence; the rest are named as-is, which is\n/// still better than nothing but is why `expect` exists.\npub fn render_parse_error(\n    error: &::pest::error::Error<Rule>,\n    file: FileId,\n) -> Diagnostic {\n    use ::pest::error::{ErrorVariant, InputLocation};\n\n    let (lo, hi) = match error.location {\n        InputLocation::Pos(p) => (p, p + 1),\n        InputLocation::Span((s, e)) => (s, e),\n    };\n    let span = Span::new(file, lo as u32, hi as u32);\n\n    let message = match &error.variant {\n        ErrorVariant::ParsingError { positives, .. } if !positives.is_empty() => {\n            let mut names: Vec<String> = positives\n                .iter()\n                .map(|r| match describe(*r) {\n                    Some(text) => text.to_string(),\n                    None => format!(\"`{r:?}`\"),\n                })\n                .collect();\n            names.sort();\n            names.dedup();\n            match names.len() {\n                1 => format!(\"expected {}\", names[0]),\n                _ => {\n                    let last = names.pop().expect(\"non-empty\");\n                    format!(\"expected {}, or {last}\", names.join(\", \"))\n                }\n            }\n        }\n        ErrorVariant::ParsingError { .. } => \"unexpected input\".to_string(),\n        ErrorVariant::CustomError { message } => message.clone(),\n    };\n\n    Diagnostic::error(message).at(span)\n}\n\n";

/// One arm of `describe` per expectation: the rule and its sentence.
pub open spec fn describe_arms(es: Seq<(String, String)>) -> Seq<char>
    decreases es.len(),
{
    if es.len() == 0 {
        Seq::empty()
    } else {
        describe_arms(es.drop_last()) + ARM_HEAD@ + es.last().0@ + " => Some("@ + debug_quoted(es.last().1@)
            + "),\n"@
    }
}

/// `describe`: human names for the rules a user can see in an error.
pub open spec fn describe_text(es: Seq<(String, String)>) -> Seq<char> {
    if es.len() == 0 {
        DESCRIBE_NONE@
    } else {
        DESCRIBE_HEAD@ + describe_arms(es) + MATCH_TAIL@
    }
}

/// One arm of `error_at` per recovering rule.
pub open spec fn recovery_arms(rs: Seq<Recovery>) -> Seq<char>
    decreases rs.len(),
{
    if rs.len() == 0 {
        Seq::empty()
    } else {
        recovery_arms(rs.drop_last()) + ARM_HEAD@ + rs.last().error_rule@ + RECOVERY_MID@ + rs.last().rule@
            + RECOVERY_TAIL@
    }
}

/// `syntax_errors` and `error_at`: one diagnostic per recovery node.
pub open spec fn collect_text(rs: Seq<Recovery>) -> Seq<char> {
    COLLECT@ + if rs.len() == 0 {
        ERROR_AT_NONE@
    } else {
        ERROR_AT_HEAD@ + recovery_arms(rs) + MATCH_TAIL@
    }
}

/// The whole of `generated/diagnostics.rs`.
pub open spec fn diagnostics_file(l: Lowered, parser_type: Seq<char>) -> Seq<char> {
    HEADER@ + USES@ + module_of(parser_type) + RULE_IMPORT_TAIL@ + describe_text(l.expectations@) + collect_text(
        l.recoveries@,
    ) + PARSE_ERROR@
}

fn emit_describe(out: &mut String, es: &Vec<(String, String)>)
    ensures
        final(out)@ == old(out)@ + describe_text(es@),
{
    if es.len() == 0 {
        out.append(DESCRIBE_NONE);
        return;
    }
    out.append(DESCRIBE_HEAD);
    let ghost head = out@;
    let mut i: usize = 0;
    proof {
        assert(es@.take(0) =~= Seq::<(String, String)>::empty());
        assert(out@ =~= head + describe_arms(es@.take(0)));
    }
    while i < es.len()
        invariant
            i <= es@.len(),
            out@ == head + describe_arms(es@.take(i as int)),
        decreases es@.len() - i,
    {
        out.append(ARM_HEAD);
        out.append(es[i].0.as_str());
        out.append(" => Some(");
        out.append(debug_str(es[i].1.as_str()).as_str());
        out.append("),\n");
        proof {
            let t = es@.take(i + 1);
            assert(t.drop_last() =~= es@.take(i as int));
            assert(t.last() == es@[i as int]);
            assert(out@ =~= head + describe_arms(t));
        }
        i = i + 1;
    }
    proof {
        assert(es@.take(es@.len() as int) =~= es@);
    }
    out.append(MATCH_TAIL);
}

fn emit_collect(out: &mut String, rs: &Vec<Recovery>)
    ensures
        final(out)@ == old(out)@ + collect_text(rs@),
{
    out.append(COLLECT);
    if rs.len() == 0 {
        out.append(ERROR_AT_NONE);
        return;
    }
    out.append(ERROR_AT_HEAD);
    let ghost head = out@;
    let mut i: usize = 0;
    proof {
        assert(rs@.take(0) =~= Seq::<Recovery>::empty());
        assert(out@ =~= head + recovery_arms(rs@.take(0)));
    }
    while i < rs.len()
        invariant
            i <= rs@.len(),
            out@ == head + recovery_arms(rs@.take(i as int)),
        decreases rs@.len() - i,
    {
        out.append(ARM_HEAD);
        out.append(rs[i].error_rule.as_str());
        out.append(RECOVERY_MID);
        out.append(rs[i].rule.as_str());
        out.append(RECOVERY_TAIL);
        proof {
            let t = rs@.take(i + 1);
            assert(t.drop_last() =~= rs@.take(i as int));
            assert(t.last() == rs@[i as int]);
            assert(out@ =~= head + recovery_arms(t));
        }
        i = i + 1;
    }
    proof {
        assert(rs@.take(rs@.len() as int) =~= rs@);
    }
    out.append(MATCH_TAIL);
}

/// `generated/diagnostics.rs`: rule descriptions from `expect` declarations,
/// the walk that collects recovered syntax errors, and the renderer that
/// turns pest's error into a diagnostic. `Rule` is imported from the module
/// of `parser_type`.
pub fn generate(lowered: &Lowered, parser_type: &str) -> (out: String)
    ensures
        out@ == diagnostics_file(*lowered, parser_type@),
{
    let mut out = owned_header();
    out.append(USES);
    out.append(module_part(parser_type).as_str());
    out.append(RULE_IMPORT_TAIL);
    emit_describe(&mut out, &lowered.expectations);
    emit_collect(&mut out, &lowered.recoveries);
    out.append(PARSE_ERROR);
    proof {
        assert(out@ =~= diagnostics_file(*lowered, parser_type@));
    }
    out
}

fn owned_header() -> (s: String)
    ensures
        s@ == HEADER@,
{
    crate::text::owned(HEADER)
}

} // verus!
