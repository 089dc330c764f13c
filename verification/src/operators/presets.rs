//! The built-in operator presets.
//!
//! Each is stored as ordinary `.nh` source and parsed with the real parser,
//! so a preset has no privileged status: anything below could be pasted into
//! a grammar file verbatim. Tiers are listed lowest precedence first.

use vstd::prelude::*;
use crate::text::str_eq;

verus! {

/// The default preset: the full C operator set with C's bitwise/comparison
/// defect corrected (the bitwise tiers bind tighter than comparison, as in
/// Go). Deliberately not named `c`.
pub const C_STYLE: &'static str = "
precedence {
    left    \",\";
    right   \"=\" | \"+=\" | \"-=\" | \"*=\" | \"/=\" | \"%=\" | \"<<=\" | \">>=\" | \"&=\" | \"^=\" | \"|=\" -> assign;
    left    \"||\";
    left    \"&&\";
    left    \"==\" | \"!=\" | \"<=\" | \">=\" | \"<\" | \">\" -> compare;
    left    \"|\";
    left    \"^\";
    left    \"&\";
    left    \"<<\" | \">>\" -> shift;
    left    \"+\" | \"-\";
    left    \"*\" | \"/\" | \"%\";
    left    \"->\";
    prefix  \"!\" | \"~\" | \"-\" | \"+\";
    atom    atom;
}
";

/// Bit-exact C precedence, defect included, for porting real C grammars.
pub const C_STRICT: &'static str = "
precedence {
    left    \",\";
    right   \"=\" | \"+=\" | \"-=\" | \"*=\" | \"/=\" | \"%=\" | \"<<=\" | \">>=\" | \"&=\" | \"^=\" | \"|=\" -> assign;
    left    \"||\";
    left    \"&&\";
    left    \"|\";
    left    \"^\";
    left    \"&\";
    left    \"==\" | \"!=\" -> equality;
    left    \"<=\" | \">=\" | \"<\" | \">\" -> relational;
    left    \"<<\" | \">>\" -> shift;
    left    \"+\" | \"-\";
    left    \"*\" | \"/\" | \"%\";
    left    \"->\";
    prefix  \"!\" | \"~\" | \"-\" | \"+\";
    atom    atom;
}
";

/// A modern subset: arithmetic, comparison, logical, and assignment.
pub const CORE: &'static str = "
precedence {
    right   \"=\" -> assign;
    left    \"||\";
    left    \"&&\";
    left    \"==\" | \"!=\" | \"<=\" | \">=\" | \"<\" | \">\" -> compare;
    left    \"+\" | \"-\";
    left    \"*\" | \"/\" | \"%\";
    prefix  \"!\" | \"-\";
    atom    atom;
}
";

/// The empty table, for a language with nothing in common with C.
pub const NONE: &'static str = "
precedence {
    atom    atom;
}
";

/// The preset names, in the order `help` lists them.
pub open spec fn preset_names() -> Seq<Seq<char>> {
    seq!["c_style"@, "c_strict"@, "core"@, "none"@]
}

pub open spec fn source_spec(name: Seq<char>) -> Option<Seq<char>> {
    if name == "c_style"@ {
        Some(C_STYLE@)
    } else if name == "c_strict"@ {
        Some(C_STRICT@)
    } else if name == "core"@ {
        Some(CORE@)
    } else if name == "none"@ {
        Some(NONE@)
    } else {
        None
    }
}

/// The preset names, in the order `help` lists them.
pub fn names() -> (v: Vec<&'static str>)
    ensures
        v@.map_values(|s: &'static str| s@) == preset_names(),
{
    let v: Vec<&'static str> = vec!["c_style", "c_strict", "core", "none"];
    assert(v@.map_values(|s: &'static str| s@) =~= preset_names());
    v
}

/// The `.nh` source of a preset, or `None` if the name is unknown.
pub fn source(name: &str) -> (r: Option<&'static str>)
    ensures
        match r {
            Some(s) => source_spec(name@) == Some(s@),
            None => source_spec(name@) is None,
        },
{
    if str_eq(name, "c_style") {
        Some(C_STYLE)
    } else if str_eq(name, "c_strict") {
        Some(C_STRICT)
    } else if str_eq(name, "core") {
        Some(CORE)
    } else if str_eq(name, "none") {
        Some(NONE)
    } else {
        None
    }
}

} // verus!
