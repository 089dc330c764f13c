//! `generated/run.rs`: the part between "here is some source" and "the
//! handlers ran". Parse, render a parse error, collect recovered syntax
//! errors, build the tree, evaluate, decide an outcome: none of it a
//! decision, all of it easy to get subtly wrong, so it is generated. Loading
//! the source and printing diagnostics stay the caller's.

use vstd::prelude::*;
use crate::codegen::{ident, ident_spec, module_of, module_part, HEADER};
use crate::lower::{Lowered, RuleShape};
use crate::text::owned;

verus! {

pub const NO_RULES: &'static str = "\n// This grammar declares no rules, so there is nothing to run.\n";

pub const ALIAS_OPEN: &'static str = "\ncompile_error!(\n    \"the entry rule `";

pub const ALIAS_MID: &'static str = "` produces no node, so a program has nothing to \\\n     evaluate. Add a `-> label` to it -- `rule ";

pub const ALIAS_CLOSE: &'static str = " = SOI stmts:stmt* EOI -> doc;` \\\n     -- because the first rule declared is where a program starts, and a rule \\\n     with no label delegates to a single child rather than building anything.\"\n);\n";

pub const RUN_1: &'static str = "\n//! Parse, check, build, evaluate — in the one order that is correct.\n//!\n//! Loading the source is yours. Deciding what an error looks like on screen is\n//! yours. This is the part in between, which is the same in every project.\n\nuse nh_runtime::{Ctx, Diagnostic, FileId, Span};\nuse pest::Parser as _;\n\nuse ";

pub const RUN_2: &'static str = "::{ast, diagnostics, dispatch};\n\n/// Runs one source file that is already in `cx`'s [`SourceMap`].\n///\n/// ```ignore\n/// let mut sources = SourceMap::new();\n/// let file = sources.load(&path)?;          // yours\n/// let mut cx = Ctx::new(sources);\n///\n/// match ";

pub const RUN_3: &'static str = "::run::eval_source(&mut host, &mut cx, file) {\n///     Ok(value) => { /* .. */ }\n///     Err(errors) => for d in &errors {     // yours\n///         eprint!(\"{}\", d.render(cx.sources()));\n///     },\n/// }\n/// ```\n///\n/// `Ok` means the program parsed cleanly, evaluated, and reported nothing.\n/// Anything else comes back as a list, in source order where that is knowable:\n/// recovered syntax errors first, then whatever evaluation reported, then the\n/// failure that stopped it.\n///\n/// **Recovered syntax errors are collected before evaluation and never\n/// skipped.** `recover` lets a parse continue past a bad statement, leaving\n/// error nodes behind; a tree that contains one is a tree that is known to be\n/// wrong, so its result is never returned as `Ok`.\npub fn eval_source<H>(\n    host: &mut H,\n    cx: &mut Ctx,\n    file: FileId,\n) -> Result<<H as dispatch::Semantics>::Out, Vec<Diagnostic>>\nwhere\n    H: dispatch::Handlers,\n{\n    let text = cx.sources().text(file).to_string();\n\n    let mut pairs = match ";

pub const RUN_4: &'static str = "::parse(";

pub const RUN_5: &'static str = "::Rule::";

pub const RUN_6: &'static str = ", &text) {\n        Ok(p) => p,\n        // `expect` declarations turn pest's rule names into a sentence.\n        Err(e) => return Err(vec![diagnostics::render_parse_error(&e, file)]),\n    };\n    let node = pairs.next().expect(\"`";

pub const RUN_7: &'static str = "` yields exactly one pair\");\n\n    // Before evaluating anything, so one typo does not hide the rest.\n    let mut found = diagnostics::syntax_errors(&node, file);\n    let reported_before = cx.diagnostics().len();\n\n    // The whole file is the outermost span, so an error raised where nothing\n    // narrower is in scope still points somewhere.\n    cx.enter(Span::new(file, 0, 0));\n    let outcome = ast::build_";

pub const RUN_8: &'static str = "(node, file)\n        .and_then(|tree| dispatch::eval_";

pub const RUN_9: &'static str = "(host, &tree, cx));\n    cx.leave();\n\n    // Anything a handler reported through `cx.report` during this run. Taken by\n    // index rather than wholesale, so a caller that reuses a `Ctx` across files\n    // does not see the previous file's diagnostics again.\n    //\n    // Skipping duplicates is not tidiness. Evaluating an error node reports the\n    // *same* syntax error `syntax_errors` already found, so without this every\n    // reached recovery point is printed twice. `syntax_errors` is the one kept\n    // because it is complete: it sees error nodes in code that never ran.\n    for d in &cx.diagnostics()[reported_before..] {\n        if !found\n            .iter()\n            .any(|seen| seen.span == d.span && seen.message == d.message)\n        {\n            found.push(d.clone());\n        }\n    }\n\n    match outcome {\n        Ok(value) if found.is_empty() => Ok(value),\n        // It evaluated, but the program was not clean. Returning the value here\n        // would make a reported error look like a successful run.\n        Ok(_) => Err(found),\n        Err(e) => {\n            // `AlreadyReported` yields nothing: its diagnostic is above.\n            found.extend(e.diagnostic());\n            Err(found)\n        }\n    }\n}\n";

/// The whole of `generated/run.rs`. The entry rule is the first declared;
/// a grammar with none gets a note, and one whose entry rule builds no node
/// gets a build-time error saying why, in the file that would otherwise
/// fail to compile.
pub open spec fn run_file(l: Lowered, parser_type: Seq<char>, generated_mod: Seq<char>) -> Seq<char> {
    HEADER@ + if l.rules@.len() == 0 {
        NO_RULES@
    } else {
        let entry = l.rules@[0].name@;
        if l.rules@[0].shape is Alias {
            ALIAS_OPEN@ + entry + ALIAS_MID@ + entry + ALIAS_CLOSE@
        } else {
            let e = ident_spec(entry);
            RUN_1@ + generated_mod + RUN_2@ + generated_mod + RUN_3@ + parser_type + RUN_4@ + module_of(parser_type)
                + RUN_5@ + entry + RUN_6@ + entry + RUN_7@ + e + RUN_8@ + e + RUN_9@
        }
    }
}

/// `generated/run.rs` for a parser type such as `crate::parser::P` (whose
/// module also holds `Rule`) and the module path the generated files live
/// under.
pub fn generate(lowered: &Lowered, parser_type: &str, generated_mod: &str) -> (out: String)
    ensures
        out@ == run_file(*lowered, parser_type@, generated_mod@),
{
    let mut out = owned(HEADER);
    if lowered.rules.len() == 0 {
        out.append(NO_RULES);
        return out;
    }
    let entry = lowered.rules[0].name.as_str();
    if let RuleShape::Alias { .. } = &lowered.rules[0].shape {
        out.append(ALIAS_OPEN);
        out.append(entry);
        out.append(ALIAS_MID);
        out.append(entry);
        out.append(ALIAS_CLOSE);
        return out;
    }
    let e = ident(entry);
    out.append(RUN_1);
    out.append(generated_mod);
    out.append(RUN_2);
    out.append(generated_mod);
    out.append(RUN_3);
    out.append(parser_type);
    out.append(RUN_4);
    out.append(module_part(parser_type).as_str());
    out.append(RUN_5);
    out.append(entry);
    out.append(RUN_6);
    out.append(entry);
    out.append(RUN_7);
    out.append(e.as_str());
    out.append(RUN_8);
    out.append(e.as_str());
    out.append(RUN_9);
    proof {
        assert(out@ =~= run_file(*lowered, parser_type@, generated_mod@));
    }
    out
}

} // verus!
